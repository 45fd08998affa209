//! The chat prompt, and the compact JSON it embeds.

use vstd::prelude::*;
use crate::text::{ascii_space, chars_of, is_ascii_space, is_json_space, json_space, push_chars, push_str, text_of};

verus! {

/// Chat-template markers.
pub const IM_START: &'static str = "<|im_start|>";

pub const IM_END: &'static str = "<|im_end|>";

pub const TOOLS_START: &'static str = "<tools>";

pub const TOOLS_END: &'static str = "</tools>";

pub const TOOL_CALL_START: &'static str = "<tool_call>";

pub const TOOL_CALL_END: &'static str = "</tool_call>";

pub const THINK_START: &'static str = "<think>";

pub const THINK_END: &'static str = "</think>";

/// Where a reader of JSON text stands: inside a string or not, and behind a
/// backslash or not.
#[derive(Debug, Clone, Copy, PartialEq, Eq, Structural)]
pub struct Quoting {
    pub in_string: bool,
    pub escaped: bool,
}

/// One character further.
pub open spec fn quoting_step(q: Quoting, c: char) -> Quoting {
    if q.in_string {
        if q.escaped {
            Quoting { in_string: true, escaped: false }
        } else if c == '\\' {
            Quoting { in_string: true, escaped: true }
        } else if c == '"' {
            Quoting { in_string: false, escaped: false }
        } else {
            q
        }
    } else if c == '"' {
        Quoting { in_string: true, escaped: false }
    } else {
        q
    }
}

/// Where a reader stands behind `s`.
pub open spec fn quoting(s: Seq<char>) -> Quoting
    decreases s.len(),
{
    if s.len() == 0 {
        Quoting { in_string: false, escaped: false }
    } else {
        quoting_step(quoting(s.drop_last()), s.last())
    }
}

/// White space that may be dropped outside strings; `form_feed` says whether
/// the form feed is counted with JSON's own four.
pub open spec fn droppable(c: char, form_feed: bool) -> bool {
    if form_feed {
        ascii_space(c)
    } else {
        json_space(c)
    }
}

/// `s` without the white space that stands outside strings.
pub open spec fn compacted(s: Seq<char>, form_feed: bool) -> Seq<char>
    decreases s.len(),
{
    if s.len() == 0 {
        Seq::empty()
    } else {
        let before = compacted(s.drop_last(), form_feed);
        if !quoting(s.drop_last()).in_string && droppable(s.last(), form_feed) {
            before
        } else {
            before.push(s.last())
        }
    }
}

/// Drop the white space that stands outside strings.
pub fn strip_outside_strings(s: &[char], form_feed: bool) -> (out: Vec<char>)
    ensures
        out@ == compacted(s@, form_feed),
{
    let mut out: Vec<char> = Vec::new();
    let mut q = Quoting { in_string: false, escaped: false };
    let mut i: usize = 0;
    while i < s.len()
        invariant
            i <= s@.len(),
            q == quoting(s@.take(i as int)),
            out@ == compacted(s@.take(i as int), form_feed),
        decreases s.len() - i,
    {
        let c: char = s[i];
        proof {
            assert(s@.take(i + 1).drop_last() =~= s@.take(i as int));
            assert(s@.take(i + 1).last() == c);
        }
        let space: bool = if form_feed {
            is_ascii_space(c)
        } else {
            is_json_space(c)
        };
        if q.in_string || !space {
            out.push(c);
        }
        if q.in_string {
            if q.escaped {
                q.escaped = false;
            } else if c == '\\' {
                q.escaped = true;
            } else if c == '"' {
                q = Quoting { in_string: false, escaped: false };
            }
        } else if c == '"' {
            q = Quoting { in_string: true, escaped: false };
        }
        i = i + 1;
    }
    assert(s@.take(i as int) =~= s@);
    out
}

/// Strip insignificant white space from JSON, leaving string literals
/// untouched.
///
/// Deliberately not a parser: anything it cannot interpret it passes through
/// character for character, so a malformed schema reaches the model exactly as
/// the caller wrote it.
pub fn compact_json(s: &str) -> (out: String)
    ensures
        out@ == compacted(s@, false),
{
    let chars = chars_of(s);
    let kept = strip_outside_strings(&chars, false);
    text_of(&kept)
}

/// The chat prompt for a query and a compact tool list.
pub open spec fn prompt_text(
    query: Seq<char>,
    tools: Seq<char>,
    system: Option<Seq<char>>,
) -> Seq<char> {
    let head = match system {
        Some(s) => IM_START@ + "system\n"@ + s + IM_END@ + "\n"@,
        None => Seq::empty(),
    };
    head + IM_START@ + "user\n"@ + TOOLS_START@ + tools + TOOLS_END@ + "\n"@ + query + IM_END@
        + "\n"@ + IM_START@ + "assistant\n"@
}

/// The view of an optional string.
pub open spec fn opt_view(s: Option<&str>) -> Option<Seq<char>> {
    match s {
        Some(t) => Some(t@),
        None => None,
    }
}

/// Assemble the chat prompt.
///
/// ```text
/// [<|im_start|>system\n{system}<|im_end|>\n]
/// <|im_start|>user\n<tools>{tools}</tools>\n{query}<|im_end|>\n<|im_start|>assistant\n
/// ```
///
/// `tools_json` is compacted before embedding: indentation a caller naturally
/// gets from a pretty-printer is enough to change the model's decision.
pub fn build_prompt(query: &str, tools_json: &str, system: Option<&str>) -> (prompt: String)
    ensures
        prompt@ == prompt_text(query@, compacted(tools_json@, false), opt_view(system)),
{
    let tools_chars = chars_of(tools_json);
    let tools = strip_outside_strings(&tools_chars, false);
    let mut p: Vec<char> = Vec::new();
    match system {
        Some(s) => {
            push_str(&mut p, IM_START);
            push_str(&mut p, "system\n");
            push_str(&mut p, s);
            push_str(&mut p, IM_END);
            push_str(&mut p, "\n");
        },
        None => {},
    }
    let ghost head = match system {
        Some(s) => IM_START@ + "system\n"@ + s@ + IM_END@ + "\n"@,
        None => Seq::empty(),
    };
    assert(p@ =~= head);
    push_str(&mut p, IM_START);
    push_str(&mut p, "user\n");
    push_str(&mut p, TOOLS_START);
    push_chars(&mut p, &tools);
    push_str(&mut p, TOOLS_END);
    push_str(&mut p, "\n");
    push_str(&mut p, query);
    push_str(&mut p, IM_END);
    push_str(&mut p, "\n");
    push_str(&mut p, IM_START);
    push_str(&mut p, "assistant\n");
    text_of(&p)
}

/// Dropping white space outside strings leaves a reader where it stood.
proof fn lemma_quoting_of_compacted(s: Seq<char>, ff: bool)
    ensures
        quoting(compacted(s, ff)) == quoting(s),
    decreases s.len(),
{
    if s.len() > 0 {
        lemma_quoting_of_compacted(s.drop_last(), ff);
        let before = compacted(s.drop_last(), ff);
        if quoting(s.drop_last()).in_string || !droppable(s.last(), ff) {
            assert(before.push(s.last()).drop_last() =~= before);
        }
    }
}

/// Text with no white space outside strings comes back unchanged.
pub proof fn compact_text_is_unchanged(s: Seq<char>, ff: bool)
    requires
        forall|i: int|
            0 <= i < s.len() && !quoting(#[trigger] s.take(i)).in_string ==> !droppable(s[i], ff),
    ensures
        compacted(s, ff) == s,
    decreases s.len(),
{
    if s.len() > 0 {
        let t = s.drop_last();
        assert forall|i: int| 0 <= i < t.len() && !quoting(#[trigger] t.take(i)).in_string implies !droppable(
            t[i],
            ff,
        ) by {
            assert(t.take(i) =~= s.take(i));
        }
        compact_text_is_unchanged(t, ff);
        assert(s.take(s.len() - 1) =~= t);
        assert(compacted(s, ff) =~= s);
    } else {
        assert(compacted(s, ff) =~= s);
    }
}

proof fn lemma_compacted_is_compact(s: Seq<char>, ff: bool, i: int)
    requires
        0 <= i < compacted(s, ff).len(),
        !quoting(compacted(s, ff).take(i)).in_string,
    ensures
        !droppable(compacted(s, ff)[i], ff),
    decreases s.len(),
{
    let t = s.drop_last();
    let before = compacted(t, ff);
    let all = compacted(s, ff);
    if i < before.len() {
        assert(all.take(i) =~= before.take(i));
        lemma_compacted_is_compact(t, ff, i);
    } else {
        assert(all.take(i) =~= before);
        lemma_quoting_of_compacted(t, ff);
    }
}

/// Text that compacting leaves as it is holds no white space outside strings.
pub proof fn compact_text_keeps_no_space(s: Seq<char>, ff: bool, i: int)
    requires
        compacted(s, ff) == s,
        0 <= i < s.len(),
        !quoting(s.take(i)).in_string,
    ensures
        !droppable(s[i], ff),
{
    lemma_compacted_is_compact(s, ff, i);
}

/// Compacting twice is compacting once.
pub proof fn compacting_is_idempotent(s: Seq<char>, ff: bool)
    ensures
        compacted(compacted(s, ff), ff) == compacted(s, ff),
{
    let c = compacted(s, ff);
    assert forall|i: int| 0 <= i < c.len() && !quoting(#[trigger] c.take(i)).in_string implies !droppable(
        c[i],
        ff,
    ) by {
        lemma_compacted_is_compact(s, ff, i);
    }
    compact_text_is_unchanged(c, ff);
}

/// White space between tokens does not reach the model: inserting one such
/// character anywhere outside a string leaves the compact text the same.
pub proof fn formatting_does_not_matter(a: Seq<char>, c: char, b: Seq<char>, ff: bool)
    requires
        !quoting(a).in_string,
        droppable(c, ff),
    ensures
        compacted(a.push(c) + b, ff) == compacted(a + b, ff),
        quoting(a.push(c) + b) == quoting(a + b),
    decreases b.len(),
{
    if b.len() == 0 {
        assert(a.push(c) + b =~= a.push(c));
        assert(a + b =~= a);
        assert(a.push(c).drop_last() =~= a);
    } else {
        let t = b.drop_last();
        formatting_does_not_matter(a, c, t, ff);
        assert((a.push(c) + b).drop_last() =~= a.push(c) + t);
        assert((a + b).drop_last() =~= a + t);
        assert((a.push(c) + b).last() == b.last());
        assert((a + b).last() == b.last());
    }
}

/// The characters of a string literal survive compaction: what is read inside
/// a string is kept.
pub proof fn string_contents_are_kept(a: Seq<char>, c: char, ff: bool)
    requires
        quoting(a).in_string,
    ensures
        compacted(a.push(c), ff) == compacted(a, ff).push(c),
{
    assert(a.push(c).drop_last() =~= a);
}

/// One character of a string literal, as it is written.
pub enum TextChar {
    /// A character that stands for itself: no quote and no backslash.
    Plain(char),
    /// A backslash and the character that it hides.
    Escaped(char),
}

/// One lexeme of JSON text.
pub enum Lexeme {
    /// White space between the others.
    Space(char),
    /// A character outside strings: of a bracket, a separator, a number or a
    /// bare word.
    Mark(char),
    /// A string literal.
    Text(Seq<TextChar>),
}

/// The content of a string literal, as it is written.
pub open spec fn text_written(text: Seq<TextChar>) -> Seq<char>
    decreases text.len(),
{
    if text.len() == 0 {
        Seq::empty()
    } else {
        text_written(text.drop_last()) + match text.last() {
            TextChar::Plain(c) => seq![c],
            TextChar::Escaped(c) => seq!['\\', c],
        }
    }
}

/// A lexeme, as it is written.
pub open spec fn lexeme_written(lexeme: Lexeme) -> Seq<char> {
    match lexeme {
        Lexeme::Space(c) => seq![c],
        Lexeme::Mark(c) => seq![c],
        Lexeme::Text(text) => seq!['"'] + text_written(text) + seq!['"'],
    }
}

/// Lexemes, written one after another.
pub open spec fn written(lexemes: Seq<Lexeme>) -> Seq<char>
    decreases lexemes.len(),
{
    if lexemes.len() == 0 {
        Seq::empty()
    } else {
        written(lexemes.drop_last()) + lexeme_written(lexemes.last())
    }
}

/// No character of a string literal's content is a bare quote or backslash.
pub open spec fn is_text(text: Seq<TextChar>) -> bool {
    forall|i: int|
        0 <= i < text.len() ==> match #[trigger] text[i] {
            TextChar::Plain(c) => c != '"' && c != '\\',
            TextChar::Escaped(_) => true,
        }
}

/// The lexemes are what they say: spaces are a space, a tab, a line feed or a
/// carriage return, or a form feed where that counts; marks are none of these
/// and no quote.
pub open spec fn are_lexemes(lexemes: Seq<Lexeme>, form_feed: bool) -> bool {
    forall|i: int|
        0 <= i < lexemes.len() ==> match #[trigger] lexemes[i] {
            Lexeme::Space(c) => c == ' ' || c == '\t' || c == '\n' || c == '\r' || (form_feed && c
                == '\u{c}'),
            Lexeme::Mark(c) => c != ' ' && c != '\t' && c != '\n' && c != '\r' && !(form_feed && c
                == '\u{c}') && c != '"',
            Lexeme::Text(text) => is_text(text),
        }
}

/// The lexemes without the white space between them.
pub open spec fn without_spaces(lexemes: Seq<Lexeme>) -> Seq<Lexeme>
    decreases lexemes.len(),
{
    if lexemes.len() == 0 {
        Seq::empty()
    } else {
        let before = without_spaces(lexemes.drop_last());
        match lexemes.last() {
            Lexeme::Space(_) => before,
            other => before.push(other),
        }
    }
}

proof fn lemma_one_more(a: Seq<char>, c: char, ff: bool)
    ensures
        quoting(a + seq![c]) == quoting_step(quoting(a), c),
        compacted(a + seq![c], ff) == if !quoting(a).in_string && droppable(c, ff) {
            compacted(a, ff)
        } else {
            compacted(a, ff) + seq![c]
        },
{
    let b = a + seq![c];
    assert(b.drop_last() =~= a);
    assert(b.last() == c);
    assert(compacted(a, ff).push(c) =~= compacted(a, ff) + seq![c]);
}

proof fn lemma_inside_text(a: Seq<char>, text: Seq<TextChar>, ff: bool)
    requires
        quoting(a).in_string,
        !quoting(a).escaped,
        is_text(text),
    ensures
        quoting(a + text_written(text)) == quoting(a),
        compacted(a + text_written(text), ff) == compacted(a, ff) + text_written(text),
    decreases text.len(),
{
    if text.len() == 0 {
        assert(a + text_written(text) =~= a);
        assert(compacted(a, ff) + text_written(text) =~= compacted(a, ff));
    } else {
        let before = text.drop_last();
        let w = text_written(before);
        assert forall|i: int| 0 <= i < before.len() implies match #[trigger] before[i] {
            TextChar::Plain(c) => c != '"' && c != '\\',
            TextChar::Escaped(_) => true,
        } by {
            assert(before[i] == text[i]);
        }
        lemma_inside_text(a, before, ff);
        assert(text[text.len() - 1] == text.last());
        match text.last() {
            TextChar::Plain(c) => {
                lemma_one_more(a + w, c, ff);
                assert(a + text_written(text) =~= (a + w) + seq![c]);
                assert(compacted(a, ff) + text_written(text) =~= (compacted(a, ff) + w) + seq![c]);
            },
            TextChar::Escaped(c) => {
                let slashed = (a + w) + seq!['\\'];
                lemma_one_more(a + w, '\\', ff);
                lemma_one_more(slashed, c, ff);
                assert(a + text_written(text) =~= slashed + seq![c]);
                assert(compacted(a, ff) + text_written(text) =~= ((compacted(a, ff) + w) + seq![
                    '\\',
                ]) + seq![c]);
            },
        }
    }
}

/// Compacting takes the white space out from between the lexemes, and leaves
/// every other character: the marks, and string literals with all that stands
/// in them. Behind the lexemes a reader stands outside strings.
pub proof fn compacting_keeps_the_lexemes(lexemes: Seq<Lexeme>, ff: bool)
    requires
        are_lexemes(lexemes, ff),
    ensures
        compacted(written(lexemes), ff) == written(without_spaces(lexemes)),
        !quoting(written(lexemes)).in_string,
    decreases lexemes.len(),
{
    if lexemes.len() > 0 {
        let before = lexemes.drop_last();
        let last = lexemes.last();
        let a = written(before);
        assert(lexemes[lexemes.len() - 1] == last);
        assert forall|i: int| 0 <= i < before.len() implies match #[trigger] before[i] {
            Lexeme::Space(c) => c == ' ' || c == '\t' || c == '\n' || c == '\r' || (ff && c
                == '\u{c}'),
            Lexeme::Mark(c) => c != ' ' && c != '\t' && c != '\n' && c != '\r' && !(ff && c
                == '\u{c}') && c != '"',
            Lexeme::Text(text) => is_text(text),
        } by {
            assert(before[i] == lexemes[i]);
        }
        compacting_keeps_the_lexemes(before, ff);
        let kept = without_spaces(before);
        assert(kept.push(last).drop_last() =~= kept);
        match last {
            Lexeme::Space(c) => {
                lemma_one_more(a, c, ff);
            },
            Lexeme::Mark(c) => {
                lemma_one_more(a, c, ff);
            },
            Lexeme::Text(text) => {
                let opened = a + seq!['"'];
                let w = text_written(text);
                lemma_one_more(a, '"', ff);
                lemma_inside_text(opened, text, ff);
                lemma_one_more(opened + w, '"', ff);
                assert(written(lexemes) =~= (opened + w) + seq!['"']);
                let c = compacted(a, ff);
                assert(c + lexeme_written(last) =~= ((c + seq!['"']) + w) + seq!['"']);
            },
        }
    }
}

/// A string literal that the text ends in is kept as far as it goes.
pub proof fn compacting_keeps_an_open_text(lexemes: Seq<Lexeme>, text: Seq<TextChar>, ff: bool)
    requires
        are_lexemes(lexemes, ff),
        is_text(text),
    ensures
        compacted(written(lexemes) + seq!['"'] + text_written(text), ff) == written(
            without_spaces(lexemes),
        ) + seq!['"'] + text_written(text),
{
    compacting_keeps_the_lexemes(lexemes, ff);
    let a = written(lexemes);
    lemma_one_more(a, '"', ff);
    lemma_inside_text(a + seq!['"'], text, ff);
}

/// The prompt is the chat template with the query, the system text and the
/// tools in their places, character for character, and of the tools everything
/// but the white space between lexemes.
pub proof fn a_prompt_is_the_chat_template(
    query: Seq<char>,
    lexemes: Seq<Lexeme>,
    system: Option<Seq<char>>,
)
    requires
        are_lexemes(lexemes, false),
    ensures
        ({
            let tools = written(without_spaces(lexemes));
            let user = "<|im_start|>user\n<tools>"@ + tools + "</tools>\n"@ + query
                + "<|im_end|>\n<|im_start|>assistant\n"@;
            prompt_text(query, compacted(written(lexemes), false), system) == match system {
                None => user,
                Some(s) => "<|im_start|>system\n"@ + s + "<|im_end|>\n"@ + user,
            }
        }),
{
    compacting_keeps_the_lexemes(lexemes, false);
    reveal_strlit("<|im_start|>");
    reveal_strlit("<|im_end|>");
    reveal_strlit("<tools>");
    reveal_strlit("</tools>");
    reveal_strlit("user\n");
    reveal_strlit("system\n");
    reveal_strlit("assistant\n");
    reveal_strlit("\n");
    reveal_strlit("<|im_start|>user\n<tools>");
    reveal_strlit("</tools>\n");
    reveal_strlit("<|im_end|>\n<|im_start|>assistant\n");
    reveal_strlit("<|im_start|>system\n");
    reveal_strlit("<|im_end|>\n");
    let tools = written(without_spaces(lexemes));
    let user = "<|im_start|>user\n<tools>"@ + tools + "</tools>\n"@ + query
        + "<|im_end|>\n<|im_start|>assistant\n"@;
    match system {
        None => {
            assert(prompt_text(query, tools, system) =~= user);
        },
        Some(s) => {
            assert(prompt_text(query, tools, system) =~= "<|im_start|>system\n"@ + s
                + "<|im_end|>\n"@ + user);
        },
    }
}

/// White space between the tools' lexemes does not reach the model: texts that
/// differ in it alone give the same prompt.
pub proof fn a_prompt_does_not_show_the_formatting(
    query: Seq<char>,
    a: Seq<Lexeme>,
    b: Seq<Lexeme>,
    system: Option<Seq<char>>,
)
    requires
        are_lexemes(a, false),
        are_lexemes(b, false),
        without_spaces(a) == without_spaces(b),
    ensures
        prompt_text(query, compacted(written(a), false), system) == prompt_text(
            query,
            compacted(written(b), false),
            system,
        ),
{
    compacting_keeps_the_lexemes(a, false);
    compacting_keeps_the_lexemes(b, false);
}

/// Of compacted text, no character outside strings is a space, a tab, a line
/// feed or a carriage return, whatever the text was.
pub proof fn compact_text_holds_none_of_the_four(s: Seq<char>, ff: bool, i: int)
    requires
        0 <= i < compacted(s, ff).len(),
        !quoting(compacted(s, ff).take(i)).in_string,
    ensures
        ({
            let c = compacted(s, ff)[i];
            c != ' ' && c != '\t' && c != '\n' && c != '\r'
        }),
{
    lemma_compacted_is_compact(s, ff, i);
}

} // verus!
