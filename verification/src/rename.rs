//! Rewriting tool names in JSON text.
//!
//! The model sees and emits snake-case names; the caller declared its own. The
//! values of `"name"` keys are rewritten, everything else is copied.

use vstd::prelude::*;
use crate::declarations::{
    holds,
    is_spaces,
    lemma_holds_both,
    lemma_quoted,
    only_at,
    quoted,
    white_space_is_passed_over,
};
use crate::json::{
    after_space,
    end_of_string,
    lemma_skip_space,
    lemma_string_end,
    skip_space,
    string_end,
};
use crate::prompt::{
    compact_text_keeps_no_space,
    compacted,
    is_text,
    quoting,
    quoting_step,
    text_written,
    TextChar,
};
use crate::snake::{snake, snake_case_is_made_of_words};
use crate::text::{ascii_space, chars_of, part_of, push_chars, same_chars, stands_at, starts_at, text_of};
use crate::tools::{are_tools, is_tool, name_key, ToolDef, ToolSpec};

verus! {

/// What each name is replaced by, in order of precedence.
pub type Renames = Seq<(Seq<char>, Seq<char>)>;

/// The first replacement for `name`; `name` itself where there is none.
pub open spec fn replacement(table: Renames, name: Seq<char>) -> Seq<char>
    decreases table.len(),
{
    if table.len() == 0 {
        name
    } else if table[0].0 == name {
        table[0].1
    } else {
        replacement(table.skip(1), name)
    }
}

/// Tools whose snake-case name differs from the declared one: declared name
/// to snake case, or with `back`, snake case to declared name.
pub open spec fn renames(tools: Seq<ToolDef>, back: bool) -> Renames
    decreases tools.len(),
{
    if tools.len() == 0 {
        Seq::empty()
    } else {
        let before = renames(tools.drop_last(), back);
        let t = tools.last();
        if t.name@ == t.snake_name@ {
            before
        } else if back {
            before.push((t.snake_name@, t.name@))
        } else {
            before.push((t.name@, t.snake_name@))
        }
    }
}

/// The names that are replaced depend only on what the tools declare.
pub proof fn renames_follow_the_declaration(
    a: Seq<ToolDef>,
    b: Seq<ToolDef>,
    declared: Seq<ToolSpec>,
    back: bool,
)
    requires
        are_tools(a, declared),
        are_tools(b, declared),
    ensures
        renames(a, back) == renames(b, back),
    decreases a.len(),
{
    if a.len() > 0 {
        let n = a.len() - 1;
        let shorter = declared.drop_last();
        assert(is_tool(a[n], declared[n]));
        assert(is_tool(b[n], declared[n]));
        assert forall|i: int| 0 <= i < n implies is_tool(#[trigger] a.drop_last()[i], shorter[i]) by {
            assert(is_tool(a[i], declared[i]));
        }
        assert forall|i: int| 0 <= i < n implies is_tool(#[trigger] b.drop_last()[i], shorter[i]) by {
            assert(is_tool(b[i], declared[i]));
        }
        renames_follow_the_declaration(a.drop_last(), b.drop_last(), shorter, back);
    }
}

/// `s` from `i` on, with the string value of every `"name"` key replaced. The
/// white space around the key's colon is dropped.
pub open spec fn renamed_from(s: Seq<char>, i: int, table: Renames) -> Seq<char>
    decreases s.len() - i,
{
    if i < 0 || i >= s.len() {
        Seq::empty()
    } else if stands_at(s, i, name_key()) {
        let a = skip_space(s, i + name_key().len());
        let colon = a < s.len() && s[a] == ':';
        let b = if colon {
            a + 1
        } else {
            a
        };
        let d = skip_space(s, b);
        let head = if colon {
            name_key().push(':')
        } else {
            name_key()
        };
        if i < d <= s.len() {
            if d < s.len() && s[d] == '"' {
                let e = string_end(s, d + 1);
                let value = replacement(table, s.subrange(d + 1, e));
                if d < e < s.len() {
                    head.push('"') + value.push('"') + renamed_from(s, e + 1, table)
                } else {
                    head.push('"') + value
                }
            } else {
                head + renamed_from(s, d, table)
            }
        } else {
            Seq::empty()
        }
    } else {
        seq![s[i]] + renamed_from(s, i + 1, table)
    }
}

/// The text with its names replaced; untouched where nothing is to be renamed.
pub open spec fn renamed(s: Seq<char>, table: Renames) -> Seq<char> {
    if table.len() == 0 {
        s
    } else {
        renamed_from(s, 0, table)
    }
}

/// The exec table holds the entries of the spec one.
spec fn is_table(list: Seq<(Vec<char>, Vec<char>)>, table: Renames) -> bool {
    &&& list.len() == table.len()
    &&& forall|i: int|
        0 <= i < list.len() ==> (#[trigger] list[i]).0@ == table[i].0 && list[i].1@ == table[i].1
}

fn rename_table(tools: &[ToolDef], back: bool) -> (list: Vec<(Vec<char>, Vec<char>)>)
    ensures
        is_table(list@, renames(tools@, back)),
{
    let mut list: Vec<(Vec<char>, Vec<char>)> = Vec::new();
    let mut i: usize = 0;
    while i < tools.len()
        invariant
            i <= tools@.len(),
            is_table(list@, renames(tools@.take(i as int), back)),
        decreases tools.len() - i,
    {
        proof {
            assert(tools@.take(i + 1).drop_last() =~= tools@.take(i as int));
            assert(tools@.take(i + 1).last() == tools@[i as int]);
        }
        let name = chars_of(tools[i].name.as_str());
        let snake = chars_of(tools[i].snake_name.as_str());
        if !same_chars(&name, &snake) {
            if back {
                list.push((snake, name));
            } else {
                list.push((name, snake));
            }
        }
        i = i + 1;
    }
    assert(tools@.take(i as int) =~= tools@);
    list
}

fn look_up(list: &Vec<(Vec<char>, Vec<char>)>, name: &[char], Ghost(table): Ghost<Renames>) -> (out:
    Vec<char>)
    requires
        is_table(list@, table),
    ensures
        out@ == replacement(table, name@),
{
    let mut i: usize = 0;
    assert(table.skip(0) =~= table);
    while i < list.len()
        invariant
            i <= list@.len(),
            is_table(list@, table),
            replacement(table.skip(i as int), name@) == replacement(table, name@),
        decreases list.len() - i,
    {
        assert(table.skip(i as int)[0] == table[i as int]);
        assert(table.skip(i as int).skip(1) =~= table.skip(i + 1));
        assert(list@[i as int].0@ == table[i as int].0);
        if same_chars(&list[i].0, name) {
            return part_of(&list[i].1, 0, list[i].1.len());
        }
        i = i + 1;
    }
    part_of(name, 0, name.len())
}

fn rewrite(s: &[char], list: &Vec<(Vec<char>, Vec<char>)>, Ghost(table): Ghost<Renames>) -> (out: Vec<
    char,
>)
    requires
        is_table(list@, table),
    ensures
        out@ == renamed_from(s@, 0, table),
{
    let key = chars_of("\"name\"");
    proof {
        reveal_strlit("\"name\"");
    }
    let total: usize = s.len();
    let mut out: Vec<char> = Vec::new();
    let mut i: usize = 0;
    assert(out@ + renamed_from(s@, 0, table) =~= renamed_from(s@, 0, table));
    while i < total
        invariant
            i <= total,
            total == s@.len(),
            key@ == name_key(),
            key@.len() == 6,
            is_table(list@, table),
            out@ + renamed_from(s@, i as int, table) == renamed_from(s@, 0, table),
        decreases total - i,
    {
        let ghost before = out@;
        if starts_at(s, i, &key) {
            push_chars(&mut out, &key);
            let mut j: usize = after_space(s, i + 6);
            if j < total && s[j] == ':' {
                out.push(':');
                j = j + 1;
            }
            j = after_space(s, j);
            let ghost head = out@.skip(before.len() as int);
            assert(out@ =~= before + head);
            if j < total && s[j] == '"' {
                out.push('"');
                let e: usize = end_of_string(s, j + 1);
                let value = part_of(s, j + 1, e);
                let new = look_up(list, &value, Ghost(table));
                push_chars(&mut out, &new);
                if e < total {
                    out.push('"');
                    let ghost rest = renamed_from(s@, e + 1, table);
                    assert(out@ + rest =~= before + (head.push('"') + new@.push('"') + rest));
                    i = e + 1;
                } else {
                    assert(out@ + renamed_from(s@, e as int, table) =~= before + (head.push('"')
                        + new@));
                    i = e;
                }
            } else {
                let ghost rest = renamed_from(s@, j as int, table);
                assert(out@ + rest =~= before + (head + rest));
                i = j;
            }
        } else {
            out.push(s[i]);
            let ghost rest = renamed_from(s@, i + 1, table);
            assert(out@ + rest =~= before + (seq![s@[i as int]] + rest));
            i = i + 1;
        }
    }
    assert(out@ + renamed_from(s@, i as int, table) =~= out@);
    out
}

fn rename_all(text: &str, tools: &[ToolDef], back: bool) -> (out: String)
    ensures
        out@ == renamed(text@, renames(tools@, back)),
{
    let list = rename_table(tools, back);
    if list.len() == 0 {
        return text.to_owned();
    }
    let s = chars_of(text);
    let out = rewrite(&s, &list, Ghost(renames(tools@, back)));
    text_of(&out)
}

/// Replace each tool's declared name with its snake-case form.
///
/// The encoder must see snake-case names, since the model was trained on
/// them. Handles both compact and spaced JSON.
pub fn normalize_tools_json(json: &str, tool_defs: &[ToolDef]) -> (out: String)
    ensures
        out@ == renamed(json@, renames(tool_defs@, false)),
{
    rename_all(json, tool_defs, false)
}

/// Replace snake-case tool names in the model's output with the names the
/// caller declared.
///
/// A value is replaced only as a whole, so a name never matches inside a
/// longer one.
pub fn restore_tool_names(text: &str, tool_defs: &[ToolDef]) -> (out: String)
    ensures
        out@ == renamed(text@, renames(tool_defs@, true)),
{
    rename_all(text, tool_defs, true)
}

/// Where every declared name is already in snake case, text passes through.
pub proof fn snake_case_tools_rename_nothing(s: Seq<char>, tools: Seq<ToolDef>, back: bool)
    requires
        forall|i: int| 0 <= i < tools.len() ==> (#[trigger] tools[i]).name@ == tools[i].snake_name@,
    ensures
        renamed(s, renames(tools, back)) == s,
    decreases tools.len(),
{
    if tools.len() > 0 {
        assert forall|i: int| 0 <= i < tools.drop_last().len() implies (
        #[trigger] tools.drop_last()[i]).name@ == tools.drop_last()[i].snake_name@ by {
            assert(tools.drop_last()[i] == tools[i]);
        }
        snake_case_tools_rename_nothing(s, tools.drop_last(), back);
        assert(tools.last().name@ == tools[tools.len() - 1].snake_name@);
        if renames(tools.drop_last(), back).len() > 0 {
            lemma_no_renames(tools.drop_last(), back);
        }
    }
}

proof fn lemma_no_renames(tools: Seq<ToolDef>, back: bool)
    requires
        forall|i: int| 0 <= i < tools.len() ==> (#[trigger] tools[i]).name@ == tools[i].snake_name@,
    ensures
        renames(tools, back).len() == 0,
    decreases tools.len(),
{
    if tools.len() > 0 {
        assert forall|i: int| 0 <= i < tools.drop_last().len() implies (
        #[trigger] tools.drop_last()[i]).name@ == tools.drop_last()[i].snake_name@ by {
            assert(tools.drop_last()[i] == tools[i]);
        }
        lemma_no_renames(tools.drop_last(), back);
        assert(tools.last().name@ == tools[tools.len() - 1].snake_name@);
    }
}

/// Text without a `"name"` key is copied as it is.
pub proof fn text_without_names_is_copied(s: Seq<char>, table: Renames)
    requires
        forall|i: int| 0 <= i < s.len() ==> !#[trigger] stands_at(s, i, name_key()),
    ensures
        renamed(s, table) == s,
{
    lemma_copied_from(s, 0, table);
    assert(s.skip(0) =~= s);
}

proof fn lemma_copied_from(s: Seq<char>, i: int, table: Renames)
    requires
        0 <= i <= s.len(),
        forall|i: int| 0 <= i < s.len() ==> !#[trigger] stands_at(s, i, name_key()),
    ensures
        renamed_from(s, i, table) == s.skip(i),
    decreases s.len() - i,
{
    if i < s.len() {
        lemma_copied_from(s, i + 1, table);
        assert(!stands_at(s, i, name_key()));
        assert(seq![s[i]] + s.skip(i + 1) =~= s.skip(i));
    } else {
        assert(s.skip(i) =~= Seq::<char>::empty());
    }
}

/// The model's name for a declared tool is turned back into the declared one,
/// as long as no other renamed tool shares either of its names.
pub proof fn a_name_is_restored(tools: Seq<ToolDef>, k: int)
    requires
        0 <= k < tools.len(),
        forall|j: int|
            0 <= j < tools.len() && j != k && (#[trigger] tools[j]).name@ != tools[j].snake_name@
                ==> tools[j].name@ != tools[k].name@ && tools[j].snake_name@
                != tools[k].snake_name@,
    ensures
        replacement(renames(tools, false), tools[k].name@) == tools[k].snake_name@,
        replacement(
            renames(tools, true),
            replacement(renames(tools, false), tools[k].name@),
        ) == tools[k].name@,
{
    lemma_replacement(tools, false, tools[k].name@, k);
    if tools[k].name@ == tools[k].snake_name@ {
        lemma_no_replacement(tools, true, tools[k].name@);
    } else {
        lemma_replacement(tools, true, tools[k].snake_name@, k);
    }
}

/// `from(t)` is what the table matches tool `t` by.
spec fn from(t: ToolDef, back: bool) -> Seq<char> {
    if back {
        t.snake_name@
    } else {
        t.name@
    }
}

spec fn to(t: ToolDef, back: bool) -> Seq<char> {
    if back {
        t.name@
    } else {
        t.snake_name@
    }
}

proof fn lemma_no_replacement(tools: Seq<ToolDef>, back: bool, name: Seq<char>)
    requires
        forall|j: int|
            0 <= j < tools.len() && (#[trigger] tools[j]).name@ != tools[j].snake_name@ ==> from(
                tools[j],
                back,
            ) != name,
    ensures
        replacement(renames(tools, back), name) == name,
        forall|i: int|
            0 <= i < renames(tools, back).len() ==> (#[trigger] renames(tools, back)[i]).0 != name,
    decreases tools.len(),
{
    if tools.len() > 0 {
        let t = tools.drop_last();
        assert forall|j: int|
            0 <= j < t.len() && (#[trigger] t[j]).name@ != t[j].snake_name@ implies from(t[j], back)
            != name by {
            assert(t[j] == tools[j]);
        }
        lemma_no_replacement(t, back, name);
        assert(tools[tools.len() - 1] == tools.last());
        let table = renames(tools, back);
        assert forall|i: int| 0 <= i < table.len() implies (#[trigger] table[i]).0 != name by {
            if i < renames(t, back).len() {
                assert(table[i] == renames(t, back)[i]);
            }
        }
        lemma_absent(table, name);
    }
}

proof fn lemma_absent(table: Renames, name: Seq<char>)
    requires
        forall|i: int| 0 <= i < table.len() ==> (#[trigger] table[i]).0 != name,
    ensures
        replacement(table, name) == name,
    decreases table.len(),
{
    if table.len() > 0 {
        assert(table[0].0 != name);
        assert forall|i: int| 0 <= i < table.skip(1).len() implies (#[trigger] table.skip(1)[i]).0
            != name by {
            assert(table.skip(1)[i] == table[i + 1]);
        }
        lemma_absent(table.skip(1), name);
    }
}

proof fn lemma_only(table: Renames, name: Seq<char>, at: int)
    requires
        0 <= at < table.len(),
        table[at].0 == name,
        forall|i: int| 0 <= i < at ==> (#[trigger] table[i]).0 != name,
    ensures
        replacement(table, name) == table[at].1,
    decreases table.len(),
{
    if at > 0 {
        assert(table[0].0 != name);
        assert forall|i: int| 0 <= i < at - 1 implies (#[trigger] table.skip(1)[i]).0 != name by {
            assert(table.skip(1)[i] == table[i + 1]);
        }
        lemma_only(table.skip(1), name, at - 1);
    }
}

/// `name` is matched by tool `k` and by no other differing tool.
proof fn lemma_replacement(tools: Seq<ToolDef>, back: bool, name: Seq<char>, k: int)
    requires
        0 <= k < tools.len(),
        from(tools[k], back) == name,
        forall|j: int|
            0 <= j < tools.len() && j != k && (#[trigger] tools[j]).name@ != tools[j].snake_name@
                ==> from(tools[j], back) != name,
    ensures
        replacement(renames(tools, back), name) == if tools[k].name@ == tools[k].snake_name@ {
            name
        } else {
            to(tools[k], back)
        },
    decreases tools.len(),
{
    let t = tools.drop_last();
    let last = tools.len() - 1;
    assert(tools[last] == tools.last());
    let table = renames(tools, back);
    let before = renames(t, back);
    if k == last {
        assert forall|j: int|
            0 <= j < t.len() && (#[trigger] t[j]).name@ != t[j].snake_name@ implies from(t[j], back)
            != name by {
            assert(t[j] == tools[j]);
        }
        lemma_no_replacement(t, back, name);
        if tools[k].name@ != tools[k].snake_name@ {
            assert forall|i: int| 0 <= i < before.len() implies (#[trigger] table[i]).0 != name by {
                assert(table[i] == before[i]);
            }
            lemma_only(table, name, before.len() as int);
        }
    } else {
        assert forall|j: int|
            0 <= j < t.len() && j != k && (#[trigger] t[j]).name@ != t[j].snake_name@ implies from(
            t[j],
            back,
        ) != name by {
            assert(t[j] == tools[j]);
        }
        assert(t[k] == tools[k]);
        lemma_replacement(t, back, name, k);
        if tools[last].name@ != tools[last].snake_name@ {
            lemma_pushed(before, table.last(), name);
            assert(table =~= before.push(table.last()));
        }
    }
}

/// An entry for another name changes nothing.
proof fn lemma_pushed(table: Renames, entry: (Seq<char>, Seq<char>), name: Seq<char>)
    requires
        entry.0 != name,
    ensures
        replacement(table.push(entry), name) == replacement(table, name),
    decreases table.len(),
{
    if table.len() == 0 {
        assert(table.push(entry).skip(1) =~= Seq::<(Seq<char>, Seq<char>)>::empty());
        assert(table.push(entry)[0] == entry);
        assert(replacement(table.push(entry).skip(1), name) == name);
    } else {
        assert(table.push(entry)[0] == table[0]);
        assert(table.push(entry).skip(1) =~= table.skip(1).push(entry));
        lemma_pushed(table.skip(1), entry, name);
    }
}

/// No two tools share a name, declared or in snake case.
pub open spec fn names_are_apart(tools: Seq<ToolDef>) -> bool {
    forall|i: int, j: int|
        #![trigger tools[i], tools[j]]
        0 <= i < j < tools.len() ==> tools[i].name@ != tools[j].name@ && tools[i].snake_name@
            != tools[j].snake_name@
}

/// Some tool is declared as `name`.
pub open spec fn is_declared(tools: Seq<ToolDef>, name: Seq<char>) -> bool {
    exists|k: int| 0 <= k < tools.len() && (#[trigger] tools[k]).name@ == name
}

/// Where the value of a `"name"` key at `i` starts, with nothing between the
/// key, its colon and the value.
pub open spec fn value_at(s: Seq<char>, i: int) -> int {
    if i + 6 < s.len() && s[i + 6] == ':' {
        i + 7
    } else {
        i + 6
    }
}

/// Some tool's name in snake case is `name`.
pub open spec fn is_snake_name(tools: Seq<ToolDef>, name: Seq<char>) -> bool {
    exists|k: int| 0 <= k < tools.len() && (#[trigger] tools[k]).snake_name@ == name
}

/// Wherever `"name"` stands and a string follows it, that string is no tool's
/// name in snake case, unless a tool is declared under it.
pub open spec fn names_are_declared(s: Seq<char>, tools: Seq<ToolDef>) -> bool {
    forall|i: int| #[trigger]
        stands_at(s, i, name_key()) ==> {
            let d = value_at(s, i);
            d < s.len() && s[d] == '"' ==> {
                let value = s.subrange(d + 1, string_end(s, d + 1));
                is_snake_name(tools, value) ==> is_declared(tools, value)
            }
        }
}

/// Wherever `"name"` stands, its first quote opens a string or is hidden by a
/// backslash inside one. In JSON a quote that closes a string is never
/// followed by a letter.
pub open spec fn names_are_quoted(s: Seq<char>) -> bool {
    forall|i: int| #[trigger]
        stands_at(s, i, name_key()) ==> !quoting(s.take(i)).in_string || quoting(
            s.take(i),
        ).escaped
}

/// No white space follows a `"name"` key, or the colon behind it.
pub open spec fn names_are_tight(s: Seq<char>) -> bool {
    forall|i: int| #[trigger]
        stands_at(s, i, name_key()) ==> {
            &&& i + 6 < s.len() ==> !ascii_space(s[i + 6])
            &&& i + 7 < s.len() && s[i + 6] == ':' ==> !ascii_space(s[i + 7])
        }
}

/// A text whose names are restored exactly.
spec fn restorable(s: Seq<char>, tools: Seq<ToolDef>) -> bool {
    names_are_tight(s) && names_are_declared(s, tools)
}

proof fn lemma_key()
    ensures
        name_key().len() == 6,
        name_key()[0] == '"',
        name_key()[1] == 'n',
        name_key()[2] == 'a',
        name_key()[3] == 'm',
        name_key()[4] == 'e',
        name_key()[5] == '"',
{
    reveal_strlit("\"name\"");
}

proof fn lemma_shifted_standing(s: Seq<char>, i: int, j: int, pat: Seq<char>)
    requires
        0 <= i <= s.len(),
        0 <= j,
    ensures
        stands_at(s.skip(i), j, pat) == stands_at(s, i + j, pat),
{
    if i + j + pat.len() <= s.len() {
        assert(s.skip(i).subrange(j, j + pat.len()) =~= s.subrange(i + j, i + j + pat.len()));
    }
}

proof fn lemma_shifted_space(s: Seq<char>, i: int, j: int)
    requires
        0 <= i,
        0 <= j,
        i + j <= s.len(),
    ensures
        skip_space(s, i + j) == i + skip_space(s.skip(i), j),
    decreases s.len() - i - j,
{
    if i + j < s.len() {
        assert(s.skip(i)[j] == s[i + j]);
        if ascii_space(s[i + j]) {
            lemma_shifted_space(s, i, j + 1);
        }
    }
}

proof fn lemma_shifted_end(s: Seq<char>, i: int, j: int)
    requires
        0 <= i,
        0 <= j,
        i + j <= s.len(),
    ensures
        string_end(s, i + j) == i + string_end(s.skip(i), j),
    decreases s.len() - i - j,
{
    if i + j < s.len() {
        assert(s.skip(i)[j] == s[i + j]);
        if s[i + j] == '"' {
        } else if s[i + j] == '\\' {
            if i + j + 2 <= s.len() {
                lemma_shifted_end(s, i, j + 2);
            }
        } else {
            lemma_shifted_end(s, i, j + 1);
        }
    }
}

/// What is rewritten from a position on depends on what stands there alone.
proof fn lemma_shifted(s: Seq<char>, i: int, j: int, table: Renames)
    requires
        0 <= i,
        0 <= j,
        i + j <= s.len(),
    ensures
        renamed_from(s, i + j, table) == renamed_from(s.skip(i), j, table),
    decreases s.len() - i - j,
{
    let u = s.skip(i);
    let p = i + j;
    if p < s.len() {
        lemma_key();
        lemma_shifted_standing(s, i, j, name_key());
        assert(u[j] == s[p]);
        if stands_at(s, p, name_key()) {
            lemma_shifted_space(s, i, j + 6);
            lemma_skip_space(s, p + 6);
            let a = skip_space(s, p + 6);
            let colon = a < s.len() && s[a] == ':';
            if a < s.len() {
                assert(u[a - i] == s[a]);
            }
            let b = if colon {
                a + 1
            } else {
                a
            };
            lemma_shifted_space(s, i, b - i);
            lemma_skip_space(s, b);
            let d = skip_space(s, b);
            if d < s.len() && s[d] == '"' {
                assert(u[d - i] == s[d]);
                lemma_shifted_end(s, i, d + 1 - i);
                lemma_string_end(s, d + 1);
                let e = string_end(s, d + 1);
                assert(u.subrange(d + 1 - i, e - i) =~= s.subrange(d + 1, e));
                if e < s.len() {
                    lemma_shifted(s, i, e + 1 - i, table);
                }
            } else {
                if d < s.len() {
                    assert(u[d - i] == s[d]);
                }
                lemma_shifted(s, i, d - i, table);
            }
        } else {
            lemma_shifted(s, i, j + 1, table);
        }
    }
}

proof fn lemma_restorable_skip(s: Seq<char>, tools: Seq<ToolDef>, n: int)
    requires
        restorable(s, tools),
        0 <= n <= s.len(),
    ensures
        restorable(s.skip(n), tools),
{
    let u = s.skip(n);
    lemma_key();
    assert forall|i: int| #[trigger] stands_at(u, i, name_key()) implies {
        &&& i + 6 < u.len() ==> !ascii_space(u[i + 6])
        &&& i + 7 < u.len() && u[i + 6] == ':' ==> !ascii_space(u[i + 7])
    } by {
        lemma_shifted_standing(s, n, i, name_key());
        assert(stands_at(s, n + i, name_key()));
    }
    assert forall|i: int| #[trigger] stands_at(u, i, name_key()) implies {
        let d = value_at(u, i);
        d < u.len() && u[d] == '"' ==> {
            let value = u.subrange(d + 1, string_end(u, d + 1));
            is_snake_name(tools, value) ==> is_declared(tools, value)
        }
    } by {
        lemma_shifted_standing(s, n, i, name_key());
        assert(stands_at(s, n + i, name_key()));
        let d = value_at(u, i);
        assert(value_at(s, n + i) == n + d);
        if d < u.len() && u[d] == '"' {
            lemma_shifted_end(s, n, d + 1);
            lemma_string_end(s, n + d + 1);
            let e = string_end(u, d + 1);
            assert(u.subrange(d + 1, e) =~= s.subrange(n + d + 1, n + e));
        }
    }
}

/// The first character is never changed, and where no key stands at the start
/// the rest is rewritten by itself.
proof fn lemma_first_char(v: Seq<char>, table: Renames)
    ensures
        v.len() == 0 ==> renamed_from(v, 0, table).len() == 0,
        v.len() > 0 ==> renamed_from(v, 0, table).len() > 0 && renamed_from(v, 0, table)[0] == v[0],
        v.len() > 0 && !stands_at(v, 0, name_key()) ==> renamed_from(v, 0, table).skip(1)
            == renamed_from(v.skip(1), 0, table),
{
    if v.len() > 0 {
        lemma_key();
        if stands_at(v, 0, name_key()) {
            assert(v.subrange(0, 6)[0] == v[0]);
            lemma_skip_space(v, 6);
            let a = skip_space(v, 6);
            let b = if a < v.len() && v[a] == ':' {
                a + 1
            } else {
                a
            };
            lemma_skip_space(v, b);
        } else {
            let rest = renamed_from(v, 1, table);
            lemma_shifted(v, 1, 0, table);
            assert((seq![v[0]] + rest).skip(1) =~= rest);
        }
    }
}

/// Rewriting makes no key: where one stands at the start of the new text, it
/// stood at the start of the old one.
proof fn lemma_no_new_key(v: Seq<char>, table: Renames)
    requires
        stands_at(renamed_from(v, 0, table), 0, name_key()),
    ensures
        stands_at(v, 0, name_key()),
{
    lemma_key();
    let r = renamed_from(v, 0, table);
    if !stands_at(v, 0, name_key()) {
        let key = r.subrange(0, 6);
        assert(key[0] == r[0] && key[1] == r[1] && key[2] == r[2] && key[3] == r[3] && key[4]
            == r[4] && key[5] == r[5]);
        lemma_first_char(v, table);
        let v1 = v.skip(1);
        let r1 = renamed_from(v1, 0, table);
        assert(r1[0] == r[1] && r1[1] == r[2] && r1[2] == r[3] && r1[3] == r[4] && r1[4] == r[5]);
        lemma_first_char(v1, table);
        lemma_no_key_at_letter(v1);
        let v2 = v1.skip(1);
        let r2 = renamed_from(v2, 0, table);
        assert(r2[0] == r1[1] && r2[1] == r1[2] && r2[2] == r1[3] && r2[3] == r1[4]);
        lemma_first_char(v2, table);
        lemma_no_key_at_letter(v2);
        let v3 = v2.skip(1);
        let r3 = renamed_from(v3, 0, table);
        assert(r3[0] == r2[1] && r3[1] == r2[2] && r3[2] == r2[3]);
        lemma_first_char(v3, table);
        lemma_no_key_at_letter(v3);
        let v4 = v3.skip(1);
        let r4 = renamed_from(v4, 0, table);
        assert(r4[0] == r3[1] && r4[1] == r3[2]);
        lemma_first_char(v4, table);
        lemma_no_key_at_letter(v4);
        let v5 = v4.skip(1);
        let r5 = renamed_from(v5, 0, table);
        assert(r5[0] == r4[1]);
        lemma_first_char(v5, table);
        assert(v.subrange(0, 6) =~= name_key());
    }
}

proof fn lemma_no_key_at_letter(v: Seq<char>)
    requires
        v.len() > 0 ==> v[0] != '"',
    ensures
        !stands_at(v, 0, name_key()),
{
    lemma_key();
    if stands_at(v, 0, name_key()) {
        assert(v.subrange(0, 6)[0] == v[0]);
    }
}

/// A string without quotes and backslashes ends at the first quote, or with
/// the text.
proof fn lemma_plain_end(s: Seq<char>, i: int, e: int)
    requires
        0 <= i <= e <= s.len(),
        e < s.len() ==> s[e] == '"',
        forall|k: int| i <= k < e ==> #[trigger] s[k] != '"' && s[k] != '\\',
    ensures
        string_end(s, i) == e,
    decreases e - i,
{
    if i < e {
        assert(s[i] != '"');
        lemma_plain_end(s, i + 1, e);
    }
}

/// Where a string ends depends on the text up to there.
proof fn lemma_same_end(s: Seq<char>, t: Seq<char>, i: int)
    requires
        0 <= i <= string_end(s, i) < s.len(),
        string_end(s, i) < t.len(),
        forall|k: int| i <= k <= string_end(s, i) ==> #[trigger] s[k] == t[k],
    ensures
        string_end(t, i) == string_end(s, i),
    decreases s.len() - i,
{
    assert(s[i] == t[i]);
    if s[i] != '"' {
        if s[i] == '\\' {
            lemma_string_end(s, i + 2);
            lemma_same_end(s, t, i + 2);
        } else {
            lemma_string_end(s, i + 1);
            lemma_same_end(s, t, i + 1);
        }
    }
}

/// A value that may stand behind a `"name"` key is restored; where it was
/// replaced at all, it was by a name made of words.
proof fn lemma_value_is_restored(tools: Seq<ToolDef>, value: Seq<char>)
    requires
        names_are_apart(tools),
        forall|k: int|
            0 <= k < tools.len() ==> (#[trigger] tools[k]).snake_name@ == snake(tools[k].name@),
        is_snake_name(tools, value) ==> is_declared(tools, value),
    ensures
        ({
            let new = replacement(renames(tools, false), value);
            &&& replacement(renames(tools, true), new) == value
            &&& new == value || forall|j: int|
                0 <= j < new.len() ==> #[trigger] new[j] != '"' && new[j] != '\\'
        }),
{
    if is_declared(tools, value) {
        let k = choose|k: int| 0 <= k < tools.len() && (#[trigger] tools[k]).name@ == value;
        lemma_apart_for(tools, k);
        a_name_is_restored(tools, k);
        snake_case_is_made_of_words(value);
    } else {
        lemma_no_replacement(tools, false, value);
        lemma_no_replacement(tools, true, value);
    }
}

/// The head of a text that starts with a `"name"` key: the key, and the colon
/// where there is one.
spec fn key_head(u: Seq<char>) -> Seq<char> {
    if value_at(u, 0) == 7 {
        name_key().push(':')
    } else {
        name_key()
    }
}

proof fn lemma_key_head(u: Seq<char>, tools: Seq<ToolDef>)
    requires
        restorable(u, tools),
        stands_at(u, 0, name_key()),
    ensures
        u.len() >= 6,
        value_at(u, 0) <= u.len(),
        skip_space(u, 6) == 6,
        skip_space(u, value_at(u, 0)) == value_at(u, 0),
        key_head(u).len() == value_at(u, 0),
        u == key_head(u) + u.skip(value_at(u, 0)),
{
    lemma_key();
    assert(u.subrange(0, 6) == name_key());
    assert(u =~= key_head(u) + u.skip(value_at(u, 0)));
}

/// A key and a string value: the text that has `new` in its place is read with
/// `new` as the value.
proof fn lemma_new_value(head: Seq<char>, new: Seq<char>, rest: Seq<char>, back: Renames)
    requires
        head == name_key() || head == name_key().push(':'),
        string_end(head.push('"') + new.push('"') + rest, head.len() as int + 1) == head.len() + 1
            + new.len(),
    ensures
        renamed_from(head.push('"') + new.push('"') + rest, 0, back) == head.push('"')
            + replacement(back, new).push('"') + renamed_from(rest, 0, back),
{
    lemma_key();
    let r = head.push('"') + new.push('"') + rest;
    let d = head.len() as int;
    let e = d + 1 + new.len();
    assert(r.subrange(0, 6) =~= name_key());
    assert(r[d] == '"');
    if d == 7 {
        assert(r[6] == ':');
    }
    assert(skip_space(r, 6) == 6);
    assert(skip_space(r, d) == d);
    assert(r.subrange(d + 1, e) =~= new);
    assert(r.skip(e + 1) =~= rest);
    lemma_shifted(r, e + 1, 0, back);
}

/// The same of a value that the text ends in.
proof fn lemma_new_open_value(head: Seq<char>, new: Seq<char>, back: Renames)
    requires
        head == name_key() || head == name_key().push(':'),
        string_end(head.push('"') + new, head.len() as int + 1) == head.len() + 1 + new.len(),
    ensures
        renamed_from(head.push('"') + new, 0, back) == head.push('"') + replacement(back, new),
{
    lemma_key();
    let r = head.push('"') + new;
    let d = head.len() as int;
    assert(r.subrange(0, 6) =~= name_key());
    assert(r[d] == '"');
    if d == 7 {
        assert(r[6] == ':');
    }
    assert(skip_space(r, 6) == 6);
    assert(skip_space(r, d) == d);
    assert(r.subrange(d + 1, r.len() as int) =~= new);
}

/// A key without a string value: it is left as it is.
proof fn lemma_bare_key(head: Seq<char>, rest: Seq<char>, back: Renames)
    requires
        head == name_key() || head == name_key().push(':'),
        rest.len() > 0 ==> rest[0] != '"' && !ascii_space(rest[0]),
        head.len() == 6 && rest.len() > 0 ==> rest[0] != ':',
    ensures
        renamed_from(head + rest, 0, back) == head + renamed_from(rest, 0, back),
{
    lemma_key();
    let r = head + rest;
    let d = head.len() as int;
    assert(r.subrange(0, 6) =~= name_key());
    if d == 7 {
        assert(r[6] == ':');
    }
    if rest.len() > 0 {
        assert(r[d] == rest[0]);
    }
    assert(skip_space(r, 6) == 6);
    assert(skip_space(r, d) == d);
    assert(r.skip(d) =~= rest);
    lemma_shifted(r, d, 0, back);
}

/// What a text that starts with a `"name"` key and a string is made of, and what
/// it is rewritten to.
proof fn lemma_read_value(u: Seq<char>, tools: Seq<ToolDef>, table: Renames)
    requires
        restorable(u, tools),
        stands_at(u, 0, name_key()),
        value_at(u, 0) < u.len(),
        u[value_at(u, 0)] == '"',
    ensures
        ({
            let d = value_at(u, 0);
            let e = string_end(u, d + 1);
            let value = u.subrange(d + 1, e);
            let head = key_head(u);
            &&& head == name_key() || head == name_key().push(':')
            &&& head.len() == d
            &&& d + 1 <= e <= u.len()
            &&& e < u.len() ==> u == head.push('"') + value.push('"') + u.skip(e + 1)
                && renamed_from(u, 0, table) == head.push('"') + replacement(table, value).push('"')
                + renamed_from(u.skip(e + 1), 0, table)
            &&& e >= u.len() ==> u == head.push('"') + value && renamed_from(u, 0, table)
                == head.push('"') + replacement(table, value)
        }),
{
    let d = value_at(u, 0);
    let e = string_end(u, d + 1);
    let head = key_head(u);
    lemma_key();
    lemma_key_head(u, tools);
    lemma_string_end(u, d + 1);
    let value = u.subrange(d + 1, e);
    if e < u.len() {
        assert(u =~= head.push('"') + value.push('"') + u.skip(e + 1));
        lemma_shifted(u, e + 1, 0, table);
    } else {
        assert(u =~= head.push('"') + value);
    }
}

/// A string without quotes and backslashes is found behind its key.
proof fn lemma_plain_value(head: Seq<char>, new: Seq<char>, tail: Seq<char>)
    requires
        forall|j: int| 0 <= j < new.len() ==> #[trigger] new[j] != '"' && new[j] != '\\',
        tail.len() > 0 ==> tail[0] == '"',
    ensures
        string_end(head.push('"') + new + tail, head.len() as int + 1) == head.len() + 1
            + new.len(),
{
    let r = head.push('"') + new + tail;
    let d = head.len() as int;
    let e = d + 1 + new.len();
    assert forall|j: int| d + 1 <= j < e implies #[trigger] r[j] != '"' && r[j] != '\\' by {
        assert(r[j] == new[j - d - 1]);
    }
    if tail.len() > 0 {
        assert(r[e] == tail[0]);
    }
    lemma_plain_end(r, d + 1, e);
}

/// A text that starts with a `"name"` key and a string that ends comes back,
/// where what follows the string does.
proof fn lemma_round_trip_value(u: Seq<char>, tools: Seq<ToolDef>)
    requires
        restorable(u, tools),
        names_are_apart(tools),
        forall|k: int|
            0 <= k < tools.len() ==> (#[trigger] tools[k]).snake_name@ == snake(tools[k].name@),
        stands_at(u, 0, name_key()),
        value_at(u, 0) < u.len(),
        u[value_at(u, 0)] == '"',
        string_end(u, value_at(u, 0) + 1) < u.len(),
        ({
            let e = string_end(u, value_at(u, 0) + 1);
            renamed_from(
                renamed_from(u.skip(e + 1), 0, renames(tools, false)),
                0,
                renames(tools, true),
            ) == u.skip(e + 1)
        }),
    ensures
        renamed_from(renamed_from(u, 0, renames(tools, false)), 0, renames(tools, true)) == u,
{
    let there = renames(tools, false);
    let d = value_at(u, 0);
    let e = string_end(u, d + 1);
    let head = key_head(u);
    let value = u.subrange(d + 1, e);
    let new = replacement(there, value);
    let rest = renamed_from(u.skip(e + 1), 0, there);
    let r = head.push('"') + new.push('"') + rest;
    lemma_read_value(u, tools, there);
    lemma_value_is_restored(tools, value);
    if new == value {
        assert forall|k: int| d + 1 <= k <= e implies #[trigger] u[k] == r[k] by {}
        lemma_same_end(u, r, d + 1);
    } else {
        let tail = seq!['"'] + rest;
        lemma_plain_value(head, new, tail);
        assert(r =~= head.push('"') + new + tail);
    }
    lemma_new_value(head, new, rest, renames(tools, true));
}

/// The same of a text that ends in the string.
proof fn lemma_round_trip_open_value(u: Seq<char>, tools: Seq<ToolDef>)
    requires
        restorable(u, tools),
        names_are_apart(tools),
        forall|k: int|
            0 <= k < tools.len() ==> (#[trigger] tools[k]).snake_name@ == snake(tools[k].name@),
        stands_at(u, 0, name_key()),
        value_at(u, 0) < u.len(),
        u[value_at(u, 0)] == '"',
        string_end(u, value_at(u, 0) + 1) >= u.len(),
    ensures
        renamed_from(renamed_from(u, 0, renames(tools, false)), 0, renames(tools, true)) == u,
{
    let there = renames(tools, false);
    let d = value_at(u, 0);
    let head = key_head(u);
    let value = u.subrange(d + 1, string_end(u, d + 1));
    let new = replacement(there, value);
    lemma_read_value(u, tools, there);
    lemma_value_is_restored(tools, value);
    if new != value {
        lemma_plain_value(head, new, Seq::empty());
        assert(head.push('"') + new + Seq::<char>::empty() =~= head.push('"') + new);
    }
    lemma_new_open_value(head, new, renames(tools, true));
}

proof fn lemma_round_trip(u: Seq<char>, tools: Seq<ToolDef>)
    requires
        restorable(u, tools),
        names_are_apart(tools),
        forall|k: int|
            0 <= k < tools.len() ==> (#[trigger] tools[k]).snake_name@ == snake(tools[k].name@),
    ensures
        renamed_from(renamed_from(u, 0, renames(tools, false)), 0, renames(tools, true)) == u,
    decreases u.len(),
{
    let there = renames(tools, false);
    let back = renames(tools, true);
    let r = renamed_from(u, 0, there);
    if u.len() == 0 {
        assert(renamed_from(r, 0, back) =~= u);
    } else if !stands_at(u, 0, name_key()) {
        lemma_first_char(u, there);
        lemma_restorable_skip(u, tools, 1);
        lemma_round_trip(u.skip(1), tools);
        if stands_at(r, 0, name_key()) {
            lemma_no_new_key(u, there);
        }
        lemma_first_char(r, back);
        let out = renamed_from(r, 0, back);
        assert(out =~= seq![out[0]] + out.skip(1));
        assert(u =~= seq![u[0]] + u.skip(1));
    } else {
        let d = value_at(u, 0);
        let head = key_head(u);
        lemma_key();
        lemma_key_head(u, tools);
        if d < u.len() && u[d] == '"' {
            let e = string_end(u, d + 1);
            lemma_string_end(u, d + 1);
            if e < u.len() {
                lemma_restorable_skip(u, tools, e + 1);
                lemma_round_trip(u.skip(e + 1), tools);
                lemma_round_trip_value(u, tools);
            } else {
                lemma_round_trip_open_value(u, tools);
            }
        } else {
            lemma_restorable_skip(u, tools, d);
            lemma_round_trip(u.skip(d), tools);
            lemma_first_char(u.skip(d), there);
            lemma_shifted(u, d, 0, there);
            lemma_bare_key(head, renamed_from(u.skip(d), 0, there), back);
        }
    }
}

proof fn lemma_apart_for(tools: Seq<ToolDef>, k: int)
    requires
        names_are_apart(tools),
        0 <= k < tools.len(),
    ensures
        forall|j: int|
            0 <= j < tools.len() && j != k && (#[trigger] tools[j]).name@ != tools[j].snake_name@
                ==> tools[j].name@ != tools[k].name@ && tools[j].snake_name@
                != tools[k].snake_name@,
{
    assert forall|j: int| 0 <= j < tools.len() && j != k implies (#[trigger] tools[j]).name@
        != tools[k].name@ && tools[j].snake_name@ != tools[k].snake_name@ by {
        if j < k {
            assert(tools[j].name@ != tools[k].name@);
        } else {
            assert(tools[k].name@ != tools[j].name@);
        }
    }
}

proof fn lemma_as_many_back(tools: Seq<ToolDef>)
    ensures
        renames(tools, true).len() == renames(tools, false).len(),
    decreases tools.len(),
{
    if tools.len() > 0 {
        lemma_as_many_back(tools.drop_last());
    }
}

/// What a text starts with, up to its first quote, is not rewritten: text that
/// is rewritten to start with `start` starts with it.
pub proof fn renaming_keeps_the_start(s: Seq<char>, table: Renames, start: Seq<char>)
    requires
        stands_at(renamed(s, table), 0, start),
        forall|k: int| 0 <= k < start.len() ==> #[trigger] start[k] != '"',
    ensures
        stands_at(s, 0, start),
{
    if table.len() > 0 {
        lemma_same_start(s, table, start);
    }
}

proof fn lemma_same_start(v: Seq<char>, table: Renames, start: Seq<char>)
    requires
        stands_at(renamed_from(v, 0, table), 0, start),
        forall|k: int| 0 <= k < start.len() ==> #[trigger] start[k] != '"',
    ensures
        stands_at(v, 0, start),
    decreases start.len(),
{
    let r = renamed_from(v, 0, table);
    if start.len() == 0 {
        assert(v.subrange(0, 0) =~= start);
    } else {
        let n = start.len() as int;
        lemma_first_char(v, table);
        assert(r.subrange(0, n)[0] == r[0]);
        assert(start[0] != '"');
        lemma_no_key_at_letter(v);
        let rest = renamed_from(v.skip(1), 0, table);
        assert(rest.subrange(0, n - 1) =~= r.subrange(0, n).skip(1));
        assert forall|k: int| 0 <= k < start.skip(1).len() implies #[trigger] start.skip(1)[k]
            != '"' by {
            assert(start[k + 1] != '"');
        }
        lemma_same_start(v.skip(1), table, start.skip(1));
        assert(v.subrange(0, n) =~= seq![v[0]] + v.skip(1).subrange(0, n - 1));
        assert(start =~= seq![start[0]] + start.skip(1));
    }
}

/// Compact text has no white space behind a `"name"` key.
pub proof fn compact_names_are_tight(s: Seq<char>)
    requires
        compacted(s, true) == s,
        names_are_quoted(s),
    ensures
        names_are_tight(s),
{
    lemma_key();
    assert forall|i: int| #[trigger] stands_at(s, i, name_key()) implies {
        &&& i + 6 < s.len() ==> !ascii_space(s[i + 6])
        &&& i + 7 < s.len() && s[i + 6] == ':' ==> !ascii_space(s[i + 7])
    } by {
        let key = s.subrange(i, i + 6);
        assert(key[0] == s[i] && key[1] == s[i + 1] && key[2] == s[i + 2] && key[3] == s[i + 3]
            && key[4] == s[i + 4] && key[5] == s[i + 5]);
        lemma_quoting_after(s, i);
        lemma_quoting_after(s, i + 1);
        lemma_quoting_after(s, i + 2);
        lemma_quoting_after(s, i + 3);
        lemma_quoting_after(s, i + 4);
        lemma_quoting_after(s, i + 5);
        assert(!quoting(s.take(i + 6)).in_string);
        if i + 6 < s.len() {
            compact_text_keeps_no_space(s, true, i + 6);
            lemma_quoting_after(s, i + 6);
        }
        if i + 7 < s.len() && s[i + 6] == ':' {
            compact_text_keeps_no_space(s, true, i + 7);
        }
    }
}

proof fn lemma_quoting_after(s: Seq<char>, i: int)
    requires
        0 <= i < s.len(),
    ensures
        quoting(s.take(i + 1)) == quoting_step(quoting(s.take(i)), s[i]),
{
    assert(s.take(i + 1).drop_last() =~= s.take(i));
    assert(s.take(i + 1).last() == s[i]);
}

/// Restoring the declared names undoes writing them in snake case: where no
/// two tools share a name, a whole text comes back as it was. It may hold names
/// that no tool has. White space behind a `"name"` key would not come back.
pub proof fn restoring_undoes_normalising(s: Seq<char>, tools: Seq<ToolDef>)
    requires
        forall|k: int|
            0 <= k < tools.len() ==> (#[trigger] tools[k]).snake_name@ == snake(tools[k].name@),
        names_are_apart(tools),
        names_are_tight(s),
        names_are_declared(s, tools),
    ensures
        renamed(renamed(s, renames(tools, false)), renames(tools, true)) == s,
{
    lemma_as_many_back(tools);
    if renames(tools, false).len() > 0 {
        lemma_round_trip(s, tools);
    }
}

/// Compact JSON comes back from being written in snake case and restored.
pub proof fn compact_json_comes_back(s: Seq<char>, tools: Seq<ToolDef>)
    requires
        forall|k: int|
            0 <= k < tools.len() ==> (#[trigger] tools[k]).snake_name@ == snake(tools[k].name@),
        names_are_apart(tools),
        compacted(s, true) == s,
        names_are_quoted(s),
        names_are_declared(s, tools),
    ensures
        renamed(renamed(s, renames(tools, false)), renames(tools, true)) == s,
{
    compact_names_are_tight(s);
    restoring_undoes_normalising(s, tools);
}

/// A `"name"` key with a string for its value, and the text before it.
pub struct Naming {
    pub before: Seq<char>,
    pub before_colon: Seq<char>,
    pub behind_colon: Seq<char>,
    pub name: Seq<TextChar>,
}

/// Names with text between and behind them.
pub open spec fn named_text(list: Seq<Naming>, tail: Seq<char>) -> Seq<char>
    decreases list.len(),
{
    if list.len() == 0 {
        tail
    } else {
        let f = list[0];
        f.before + ("\"name\""@ + (f.before_colon + (seq![':'] + (f.behind_colon + (quoted(f.name)
            + named_text(list.skip(1), tail))))))
    }
}

/// The same text with other names, and nothing around the colons.
pub open spec fn retold(list: Seq<Naming>, names: Seq<Seq<char>>, tail: Seq<char>) -> Seq<char>
    decreases list.len(),
{
    if list.len() == 0 {
        tail
    } else {
        list[0].before + "\"name\":\""@ + names[0] + seq!['"'] + retold(
            list.skip(1),
            names.skip(1),
            tail,
        )
    }
}

/// The key stands nowhere in the text before it.
pub open spec fn is_naming(f: Naming) -> bool {
    &&& is_spaces(f.before_colon)
    &&& is_spaces(f.behind_colon)
    &&& is_text(f.name)
    &&& only_at(f.before + "\"name\""@, f.before.len() as int, "\"name\""@)
}

/// The names a tool goes by: the declared one and the one in snake case, or
/// with `back` the other way round.
pub open spec fn goes_by(t: ToolDef, back: bool, name: Seq<char>, other: Seq<char>) -> bool {
    if back {
        t.snake_name@ == name && t.name@ == other
    } else {
        t.name@ == name && t.snake_name@ == other
    }
}

/// The tool has that name, declared or with `back` in snake case.
pub open spec fn known_as(t: ToolDef, back: bool, name: Seq<char>) -> bool {
    if back {
        t.snake_name@ == name
    } else {
        t.name@ == name
    }
}

/// `other` is the tool's other name, or the same where no tool has that name.
pub open spec fn turns_into(
    tools: Seq<ToolDef>,
    back: bool,
    name: Seq<char>,
    other: Seq<char>,
) -> bool {
    ||| exists|k: int| 0 <= k < tools.len() && goes_by(#[trigger] tools[k], back, name, other)
    ||| name == other && forall|k: int|
        0 <= k < tools.len() ==> !known_as(#[trigger] tools[k], back, name)
}

proof fn lemma_turns_into(tools: Seq<ToolDef>, back: bool, name: Seq<char>, other: Seq<char>)
    requires
        names_are_apart(tools),
        turns_into(tools, back, name, other),
    ensures
        replacement(renames(tools, back), name) == other,
{
    if exists|k: int| 0 <= k < tools.len() && goes_by(#[trigger] tools[k], back, name, other) {
        let k = choose|k: int|
            0 <= k < tools.len() && goes_by(#[trigger] tools[k], back, name, other);
        assert forall|j: int|
            0 <= j < tools.len() && j != k && (#[trigger] tools[j]).name@
                != tools[j].snake_name@ implies from(tools[j], back) != name by {
            if j < k {
                assert(tools[j].name@ != tools[k].name@);
            } else {
                assert(tools[k].name@ != tools[j].name@);
            }
        }
        lemma_replacement(tools, back, name, k);
    } else {
        assert forall|j: int|
            0 <= j < tools.len() && (#[trigger] tools[j]).name@
                != tools[j].snake_name@ implies from(tools[j], back) != name by {}
        lemma_no_replacement(tools, back, name);
    }
}

proof fn lemma_some_rename(tools: Seq<ToolDef>, back: bool, k: int)
    requires
        0 <= k < tools.len(),
        tools[k].name@ != tools[k].snake_name@,
    ensures
        renames(tools, back).len() > 0,
    decreases tools.len(),
{
    if k < tools.len() - 1 {
        lemma_some_rename(tools.drop_last(), back, k);
    }
}

proof fn lemma_copied(s: Seq<char>, i: int, to: int, table: Renames)
    requires
        0 <= i <= to <= s.len(),
        forall|j: int| i <= j < to ==> !#[trigger] holds(s, j, "\"name\""@),
    ensures
        renamed_from(s, i, table) == s.subrange(i, to) + renamed_from(s, to, table),
    decreases to - i,
{
    if i < to {
        lemma_copied(s, i + 1, to, table);
        assert(!holds(s, i, "\"name\""@));
        if stands_at(s, i, name_key()) {
            assert forall|k: int| 0 <= k < name_key().len() implies s[i + k]
                == #[trigger] name_key()[k] by {
                assert(s.subrange(i, i + name_key().len())[k] == name_key()[k]);
            }
        }
        assert(s.subrange(i, to) =~= seq![s[i]] + s.subrange(i + 1, to));
        assert(renamed_from(s, i, table) =~= s.subrange(i, to) + renamed_from(s, to, table));
    } else {
        assert(s.subrange(i, to) + renamed_from(s, to, table) =~= renamed_from(s, to, table));
    }
}

proof fn lemma_retold(
    s: Seq<char>,
    at: int,
    list: Seq<Naming>,
    names: Seq<Seq<char>>,
    tail: Seq<char>,
    table: Renames,
)
    requires
        forall|k: int| 0 <= k < list.len() ==> is_naming(#[trigger] list[k]),
        names.len() == list.len(),
        forall|k: int|
            0 <= k < list.len() ==> replacement(table, text_written((#[trigger] list[k]).name))
                == names[k],
        forall|i: int| !#[trigger] holds(tail, i, "\"name\""@),
        holds(s, at, named_text(list, tail)),
        s.len() == at + named_text(list, tail).len(),
    ensures
        renamed_from(s, at, table) == retold(list, names, tail),
    decreases list.len(),
{
    let word = "\"name\""@;
    reveal_strlit("\"name\"");
    if list.len() == 0 {
        assert forall|j: int| at <= j < s.len() implies !#[trigger] holds(s, j, word) by {
            if holds(s, j, word) {
                assert forall|k: int| 0 <= k < word.len() implies tail[j - at + k]
                    == #[trigger] word[k] by {
                    assert(s[j + k] == word[k]);
                    assert(s[at + (j - at + k)] == tail[j - at + k]);
                }
                assert(holds(tail, j - at, word));
            }
        }
        lemma_copied(s, at, s.len() as int, table);
        assert(s.subrange(at, s.len() as int) =~= tail);
        assert(renamed_from(s, s.len() as int, table) =~= Seq::<char>::empty());
        assert(renamed_from(s, at, table) =~= tail);
    } else {
        let f = list[0];
        let rest = named_text(list.skip(1), tail);
        assert(is_naming(list[0]));
        let w4 = f.behind_colon + (quoted(f.name) + rest);
        let w3 = seq![':'] + w4;
        let w2 = f.before_colon + w3;
        lemma_holds_both(s, at, f.before, word + w2);
        let k0 = at + f.before.len();
        lemma_holds_both(s, k0, word, w2);
        lemma_holds_both(s, k0 + 6, f.before_colon, w3);
        let c = k0 + 6 + f.before_colon.len();
        lemma_holds_both(s, c, seq![':'], w4);
        assert(s[c + 0] == seq![':'][0]);
        lemma_holds_both(s, c + 1, f.behind_colon, quoted(f.name) + rest);
        let d = c + 1 + f.behind_colon.len();
        lemma_holds_both(s, d, quoted(f.name), rest);
        lemma_quoted(s, d, f.name);
        let e = d + quoted(f.name).len() - 1;
        assert(s[d + (e - d)] == quoted(f.name)[e - d]);
        let lead = f.before + word;
        assert forall|j: int| at <= j < k0 implies !#[trigger] holds(s, j, word) by {
            if holds(s, j, word) {
                assert forall|k: int| 0 <= k < word.len() implies lead[j - at + k]
                    == #[trigger] word[k] by {
                    assert(s[j + k] == word[k]);
                    if j + k < k0 {
                        assert(s[at + (j - at + k)] == f.before[j - at + k]);
                    } else {
                        assert(s[k0 + (j + k - k0)] == word[j + k - k0]);
                    }
                }
                assert(holds(lead, j - at, word));
            }
        }
        lemma_copied(s, at, k0, table);
        assert(s.subrange(at, k0) =~= f.before);
        assert(s.subrange(k0, k0 + 6) =~= word);
        white_space_is_passed_over(s, k0 + 6, f.before_colon);
        white_space_is_passed_over(s, c + 1, f.behind_colon);
        let others = list.skip(1);
        assert forall|k: int| 0 <= k < others.len() implies is_naming(#[trigger] others[k]) by {
            assert(others[k] == list[k + 1]);
        }
        assert forall|k: int| 0 <= k < others.len() implies replacement(
            table,
            text_written((#[trigger] others[k]).name),
        ) == names.skip(1)[k] by {
            assert(others[k] == list[k + 1]);
        }
        lemma_retold(s, e + 1, others, names.skip(1), tail, table);
        let more = retold(others, names.skip(1), tail);
        assert(replacement(table, text_written(list[0].name)) == names[0]);
        reveal_strlit("\"name\":\"");
        assert("\"name\":\""@ =~= word.push(':').push('"'));
        assert(renamed_from(s, k0, table) == word.push(':').push('"') + names[0].push('"') + more);
        assert(renamed_from(s, at, table) =~= retold(list, names, tail));
    }
}

/// Every `"name"` key with a string behind it has that string turned into the
/// tool's other name, wherever in the text it stands and however often. All
/// other text stays, but for the white space around those keys' colons.
pub proof fn every_name_is_turned(
    list: Seq<Naming>,
    names: Seq<Seq<char>>,
    tail: Seq<char>,
    tools: Seq<ToolDef>,
    back: bool,
    k: int,
)
    requires
        forall|i: int| 0 <= i < list.len() ==> is_naming(#[trigger] list[i]),
        names.len() == list.len(),
        forall|i: int|
            0 <= i < list.len() ==> turns_into(
                tools,
                back,
                text_written((#[trigger] list[i]).name),
                names[i],
            ),
        forall|i: int| !#[trigger] holds(tail, i, "\"name\""@),
        names_are_apart(tools),
        0 <= k < tools.len(),
        tools[k].name@ != tools[k].snake_name@,
    ensures
        renamed(named_text(list, tail), renames(tools, back)) == retold(list, names, tail),
{
    let table = renames(tools, back);
    lemma_some_rename(tools, back, k);
    assert forall|i: int| 0 <= i < list.len() implies replacement(
        table,
        text_written((#[trigger] list[i]).name),
    ) == names[i] by {
        lemma_turns_into(tools, back, text_written(list[i].name), names[i]);
    }
    lemma_retold(named_text(list, tail), 0, list, names, tail, table);
}

} // verus!
