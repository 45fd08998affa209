//! Tool names in snake case.

use vstd::prelude::*;
use crate::text::{
    alphanumeric,
    ascii_lower,
    chars_of,
    is_alphanumeric,
    is_lowercase,
    is_uppercase,
    lowercase,
    text_of,
    to_ascii_lower,
    uppercase,
};

verus! {

/// A name partly read: what has been written, and what the last character
/// read was.
pub struct SnakeSpec {
    pub out: Seq<char>,
    pub after_underscore: bool,
    pub after_upper: bool,
}

/// Whether a word break belongs before the upper-case letter at `i`: it
/// follows a lower-case letter or a digit, or it is the last capital of a run
/// and starts a lower-case word.
pub open spec fn breaks_before(name: Seq<char>, i: int, after_upper: bool) -> bool {
    let follows_lower = i > 0 && (lowercase(name[i - 1]) || '0' <= name[i - 1] <= '9');
    let starts_word = i + 1 < name.len() && lowercase(name[i + 1]);
    i > 0 && (follows_lower || (after_upper && starts_word))
}

/// `out` with one underscore, unless it is empty or has just got one.
pub open spec fn underscored(st: SnakeSpec) -> SnakeSpec {
    if !st.after_underscore && st.out.len() > 0 {
        SnakeSpec { out: st.out.push('_'), after_underscore: true, after_upper: false }
    } else {
        SnakeSpec { out: st.out, after_underscore: st.after_underscore, after_upper: false }
    }
}

/// The state after the first `i` characters of `name`.
pub open spec fn snake_upto(name: Seq<char>, i: nat) -> SnakeSpec
    decreases i,
{
    if i == 0 {
        SnakeSpec { out: Seq::empty(), after_underscore: false, after_upper: false }
    } else {
        let st = snake_upto(name, (i - 1) as nat);
        let c = name[i - 1];
        if c == '_' || !alphanumeric(c) {
            underscored(st)
        } else if uppercase(c) {
            let out = if !st.after_underscore && breaks_before(name, i - 1, st.after_upper) {
                st.out.push('_')
            } else {
                st.out
            };
            SnakeSpec { out: out.push(ascii_lower(c)), after_underscore: false, after_upper: true }
        } else {
            SnakeSpec { out: st.out.push(c), after_underscore: false, after_upper: false }
        }
    }
}

/// `s` without the underscores at its end.
pub open spec fn trim_underscores(s: Seq<char>) -> Seq<char>
    decreases s.len(),
{
    if s.len() > 0 && s.last() == '_' {
        trim_underscores(s.drop_last())
    } else {
        s
    }
}

/// The snake-case form of a name.
pub open spec fn snake(name: Seq<char>) -> Seq<char> {
    trim_underscores(snake_upto(name, name.len()).out)
}

/// Convert a tool name to snake case. Handles camelCase, PascalCase,
/// dot.notation and hyphen-case.
pub fn to_snake_case(name: &str) -> (out: String)
    ensures
        out@ == snake(name@),
{
    let chars = chars_of(name);
    let n: usize = chars.len();
    let mut out: Vec<char> = Vec::new();
    let mut after_underscore: bool = false;
    let mut after_upper: bool = false;
    let mut i: usize = 0;
    while i < n
        invariant
            i <= n,
            n == chars@.len(),
            chars@ == name@,
            ({
                let st = snake_upto(name@, i as nat);
                &&& out@ == st.out
                &&& after_underscore == st.after_underscore
                &&& after_upper == st.after_upper
            }),
        decreases n - i,
    {
        let c: char = chars[i];
        if c == '_' || !is_alphanumeric(c) {
            if !after_underscore && out.len() > 0 {
                out.push('_');
                after_underscore = true;
            }
            after_upper = false;
        } else if is_uppercase(c) {
            let follows_lower: bool = i > 0 && (is_lowercase(chars[i - 1]) || ('0' <= chars[i - 1]
                && chars[i - 1] <= '9'));
            let starts_word: bool = i + 1 < n && is_lowercase(chars[i + 1]);
            if i > 0 && !after_underscore && (follows_lower || (after_upper && starts_word)) {
                out.push('_');
            }
            out.push(to_ascii_lower(c));
            after_underscore = false;
            after_upper = true;
        } else {
            out.push(c);
            after_underscore = false;
            after_upper = false;
        }
        i = i + 1;
    }
    while out.len() > 0 && out[out.len() - 1] == '_'
        invariant
            trim_underscores(out@) == snake(name@),
        decreases out.len(),
    {
        let _ = out.pop();
    }
    text_of(&out)
}

/// Names made of separate words: no underscore at either end, none next to
/// another, and no ASCII capital.
pub open spec fn well_formed_snake(s: Seq<char>) -> bool {
    &&& s.len() > 0 ==> s[0] != '_' && s.last() != '_'
    &&& forall|i: int| 0 <= i < s.len() - 1 ==> !(#[trigger] s[i] == '_' && s[i + 1] == '_')
    &&& forall|i: int| 0 <= i < s.len() ==> !('A' <= #[trigger] s[i] <= 'Z')
}

/// All characters are ASCII.
pub open spec fn ascii(s: Seq<char>) -> bool {
    forall|i: int| 0 <= i < s.len() ==> #[trigger] s[i] <= '\u{7f}'
}

/// What `snake_upto` keeps true of its output.
spec fn snake_inv(name: Seq<char>, i: nat) -> bool {
    let st = snake_upto(name, i);
    &&& st.out.len() > 0 ==> st.out[0] != '_'
    &&& st.after_underscore <==> st.out.len() > 0 && st.out.last() == '_'
    &&& forall|k: int| 0 <= k < st.out.len() - 1 ==> !(#[trigger] st.out[k] == '_' && st.out[k + 1]
        == '_')
    &&& forall|k: int| 0 <= k < st.out.len() ==> !('A' <= #[trigger] st.out[k] <= 'Z')
    &&& forall|k: int| 0 <= k < st.out.len() ==> #[trigger] st.out[k] <= '\u{7f}'
    &&& i > 0 && alphanumeric(name[i - 1]) && name[i - 1] != '_' ==> st.out.len() > 0
    &&& st.after_upper ==> st.out.len() > 0
}

proof fn lemma_snake_inv(name: Seq<char>, i: nat)
    requires
        i <= name.len(),
        ascii(name),
    ensures
        snake_inv(name, i),
    decreases i,
{
    if i > 0 {
        lemma_snake_inv(name, (i - 1) as nat);
        let st = snake_upto(name, (i - 1) as nat);
        let next = snake_upto(name, i);
        let c = name[i - 1];
        assert(c <= '\u{7f}');
        if i >= 2 {
            assert(name[i - 2] <= '\u{7f}');
        }
        if c == '_' || !alphanumeric(c) {
        } else if uppercase(c) {
            assert('a' <= ascii_lower(c) <= 'z');
            if !st.after_underscore && breaks_before(name, i - 1, st.after_upper) {
                let mid = st.out.push('_');
                assert(st.out.len() > 0);
                assert(next.out =~= mid.push(ascii_lower(c)));
                assert forall|k: int| 0 <= k < next.out.len() - 1 implies !(#[trigger] next.out[k]
                    == '_' && next.out[k + 1] == '_') by {
                    if k < st.out.len() - 1 {
                        assert(st.out[k] == next.out[k]);
                    }
                }
            }
        }
    }
}

proof fn lemma_trim(s: Seq<char>)
    requires
        s.len() > 0 ==> s[0] != '_',
        forall|k: int| 0 <= k < s.len() - 1 ==> !(#[trigger] s[k] == '_' && s[k + 1] == '_'),
    ensures
        trim_underscores(s) == if s.len() > 0 && s.last() == '_' {
            s.drop_last()
        } else {
            s
        },
        trim_underscores(s).len() > 0 ==> trim_underscores(s).last() != '_',
{
    if s.len() > 0 && s.last() == '_' {
        let t = s.drop_last();
        reveal_with_fuel(trim_underscores, 2);
        if t.len() > 0 {
            assert(!(s[s.len() - 2] == '_' && s[s.len() - 2 + 1] == '_'));
        }
    }
}

proof fn lemma_trim_keeps(s: Seq<char>)
    ensures
        trim_underscores(s).len() <= s.len(),
        trim_underscores(s) == s.take(trim_underscores(s).len() as int),
    decreases s.len(),
{
    if s.len() > 0 && s.last() == '_' {
        lemma_trim_keeps(s.drop_last());
    }
}

/// The snake-case form of an ASCII name has no leading, trailing or doubled
/// underscore and no capital.
pub proof fn snake_case_is_well_formed(name: Seq<char>)
    requires
        ascii(name),
    ensures
        well_formed_snake(snake(name)),
        ascii(snake(name)),
{
    lemma_snake_inv(name, name.len());
    let out = snake_upto(name, name.len()).out;
    lemma_trim(out);
    let r = snake(name);
    assert forall|i: int| 0 <= i < r.len() implies r[i] == out[i] by {}
    assert forall|i: int| 0 <= i < r.len() - 1 implies !(#[trigger] r[i] == '_' && r[i + 1]
        == '_') by {
        assert(out[i] == r[i] && out[i + 1] == r[i + 1]);
    }
    assert forall|i: int| 0 <= i < r.len() implies !('A' <= #[trigger] r[i] <= 'Z') by {
        assert(out[i] == r[i]);
    }
    assert forall|i: int| 0 <= i < r.len() implies #[trigger] r[i] <= '\u{7f}' by {
        assert(out[i] == r[i]);
    }
}

proof fn lemma_identity_upto(name: Seq<char>, i: nat)
    requires
        i <= name.len(),
        ascii(name),
        well_formed_snake(name),
        forall|k: int| 0 <= k < name.len() ==> #[trigger] name[k] == '_' || alphanumeric(name[k]),
    ensures
        snake_upto(name, i).out == name.take(i as int),
        snake_upto(name, i).after_underscore <==> i > 0 && name[i - 1] == '_',
    decreases i,
{
    if i > 0 {
        lemma_identity_upto(name, (i - 1) as nat);
        let c = name[i - 1];
        assert(c <= '\u{7f}');
        if c == '_' {
            assert(i - 1 > 0);
            assert(!(name[i - 2] == '_' && name[i - 2 + 1] == '_'));
        } else {
            assert(alphanumeric(c));
            assert(!uppercase(c));
        }
        assert(snake_upto(name, i).out =~= name.take(i as int));
    } else {
        assert(snake_upto(name, i).out =~= name.take(0));
    }
}

/// A name that is already in snake case stays as it is.
pub proof fn snake_case_names_are_kept(name: Seq<char>)
    requires
        ascii(name),
        well_formed_snake(name),
        forall|k: int| 0 <= k < name.len() ==> #[trigger] name[k] == '_' || alphanumeric(name[k]),
    ensures
        snake(name) == name,
{
    lemma_identity_upto(name, name.len());
    assert(name.take(name.len() as int) =~= name);
}

proof fn lemma_snake_chars(name: Seq<char>, i: nat)
    requires
        i <= name.len(),
    ensures
        forall|k: int|
            0 <= k < snake_upto(name, i).out.len() ==> #[trigger] snake_upto(name, i).out[k] == '_'
                || alphanumeric(snake_upto(name, i).out[k]),
    decreases i,
{
    if i > 0 {
        lemma_snake_chars(name, (i - 1) as nat);
        let before = snake_upto(name, (i - 1) as nat).out;
        let out = snake_upto(name, i).out;
        assert forall|k: int| 0 <= k < out.len() implies #[trigger] out[k] == '_' || alphanumeric(
            out[k],
        ) by {
            if k < before.len() {
                assert(out[k] == before[k]);
            }
        }
    }
}

/// Whatever a name holds, its snake-case form is made of letters, digits and
/// underscores.
pub proof fn snake_case_is_made_of_words(name: Seq<char>)
    ensures
        forall|k: int|
            0 <= k < snake(name).len() ==> #[trigger] snake(name)[k] == '_' || alphanumeric(
                snake(name)[k],
            ),
{
    lemma_snake_chars(name, name.len());
    let out = snake_upto(name, name.len()).out;
    lemma_trim_keeps(out);
    let r = snake(name);
    assert forall|k: int| 0 <= k < r.len() implies #[trigger] r[k] == '_' || alphanumeric(r[k]) by {
        assert(out[k] == r[k]);
    }
}

/// Converting an ASCII name twice is converting it once.
pub proof fn snake_case_is_idempotent(name: Seq<char>)
    requires
        ascii(name),
    ensures
        snake(snake(name)) == snake(name),
{
    snake_case_is_well_formed(name);
    snake_case_is_made_of_words(name);
    snake_case_names_are_kept(snake(name));
}

/// How a word is written inside a name.
pub enum Shape {
    Lower,
    Capital,
    Upper,
}

/// A word of a name, and what stands before it.
pub struct Part {
    pub gap: Seq<char>,
    pub word: Seq<char>,
    pub shape: Shape,
}

/// A letter as a capital; what is no lower-case letter stays.
pub open spec fn capital(c: char) -> char {
    if 'a' <= c <= 'z' {
        (c as u8 - 32) as char
    } else {
        c
    }
}

/// A part as it stands in a name.
pub open spec fn part_written(p: Part) -> Seq<char> {
    p.gap + match p.shape {
        Shape::Lower => p.word,
        Shape::Capital => seq![capital(p.word[0])] + p.word.skip(1),
        Shape::Upper => p.word.map_values(|c: char| capital(c)),
    }
}

/// A name of several parts.
pub open spec fn name_written(parts: Seq<Part>) -> Seq<char>
    decreases parts.len(),
{
    if parts.len() == 0 {
        Seq::empty()
    } else {
        name_written(parts.drop_last()) + part_written(parts.last())
    }
}

/// The words with one underscore between each two.
pub open spec fn joined(parts: Seq<Part>) -> Seq<char>
    decreases parts.len(),
{
    if parts.len() == 0 {
        Seq::empty()
    } else if parts.len() == 1 {
        parts[0].word
    } else {
        joined(parts.drop_last()).push('_') + parts.last().word
    }
}

/// ASCII characters that are neither letters nor digits.
pub open spec fn is_gap_text(s: Seq<char>) -> bool {
    forall|i: int|
        0 <= i < s.len() ==> #[trigger] s[i] <= '\u{7f}' && !('a' <= s[i] <= 'z') && !('A' <= s[i]
            <= 'Z') && !('0' <= s[i] <= '9')
}

/// Lower-case letters and digits, a letter first; in capitals, letters only.
pub open spec fn is_word(p: Part) -> bool {
    &&& p.word.len() > 0
    &&& 'a' <= p.word[0] <= 'z'
    &&& forall|i: int|
        0 <= i < p.word.len() ==> 'a' <= #[trigger] p.word[i] <= 'z' || (!(p.shape is Upper)
            && '0' <= p.word[i] <= '9')
}

/// Something stands between the two words, or the second starts with a capital
/// behind a lower-case letter or a digit, or with a capital and a lower-case
/// letter behind a capital.
pub open spec fn told_apart(first: Part, second: Part) -> bool {
    ||| second.gap.len() > 0
    ||| !(second.shape is Lower) && (first.shape is Lower || (first.shape is Capital
        && first.word.len() > 1))
    ||| second.shape is Capital && second.word.len() > 1 && 'a' <= second.word[1] <= 'z'
}

/// Words that can be told apart, each from the one before it.
pub open spec fn are_parts(parts: Seq<Part>) -> bool {
    &&& forall|i: int|
        0 <= i < parts.len() ==> is_word(#[trigger] parts[i]) && is_gap_text(parts[i].gap)
    &&& forall|i: int|
        0 < i < parts.len() ==> told_apart(parts[i - 1], #[trigger] parts[i])
}

/// The part stands in the name at `at`.
spec fn stands(name: Seq<char>, at: int, text: Seq<char>) -> bool {
    &&& 0 <= at
    &&& at + text.len() <= name.len()
    &&& forall|i: int| 0 <= i < text.len() ==> name[at + i] == #[trigger] text[i]
}

proof fn lemma_gap(name: Seq<char>, at: nat, gap: Seq<char>, n: nat)
    requires
        stands(name, at as int, gap),
        is_gap_text(gap),
        n <= gap.len(),
        !snake_upto(name, at).after_underscore,
    ensures
        ({
            let before = snake_upto(name, at);
            let st = snake_upto(name, at + n);
            if n > 0 && before.out.len() > 0 {
                st.out == before.out.push('_') && st.after_underscore && !st.after_upper
            } else {
                st.out == before.out && !st.after_underscore && (n > 0 ==> !st.after_upper) && (n
                    == 0 ==> st == before)
            }
        }),
    decreases n,
{
    if n > 0 {
        lemma_gap(name, at, gap, (n - 1) as nat);
        assert(name[at + (n - 1)] == gap[n - 1]);
    }
}

/// The letters of a word behind its first one.
proof fn lemma_tail(name: Seq<char>, at: nat, p: Part, text: Seq<char>, n: nat, before: Seq<char>)
    requires
        is_word(p),
        text == part_written(Part { gap: Seq::empty(), ..p }),
        stands(name, at as int, text),
        1 <= n <= p.word.len(),
        !snake_upto(name, at + 1).after_underscore,
        snake_upto(name, at + 1).after_upper == !(p.shape is Lower),
        snake_upto(name, at + 1).out == before.push(p.word[0]),
        p.shape is Upper ==> at + text.len() == name.len() || !lowercase(
            name[at + text.len() as int],
        ),
    ensures
        text.len() == p.word.len(),
        ({
            let st = snake_upto(name, at + n);
            &&& st.out == before + p.word.take(n as int)
            &&& !st.after_underscore
            &&& st.after_upper == (p.shape is Upper || (p.shape is Capital && n == 1))
        }),
    decreases n,
{
    if n == 1 {
        assert(before + p.word.take(1) =~= before.push(p.word[0]));
    } else {
        lemma_tail(name, at, p, text, (n - 1) as nat, before);
        let c = p.word[n - 1];
        let k = (n - 1) as int;
        assert(name[at + k] == text[k]);
        assert(name[at + (k - 1)] == text[k - 1]);
        assert('a' <= c <= 'z' || (!(p.shape is Upper) && '0' <= c <= '9'));
        assert('a' <= p.word[k - 1] <= 'z' || (!(p.shape is Upper) && '0' <= p.word[k - 1] <= '9'));
        if p.shape is Upper {
            assert(text[k] == capital(c));
            assert(text[k - 1] == capital(p.word[k - 1]));
            if k + 1 < text.len() {
                assert(name[at + (k + 1)] == text[k + 1]);
                assert(text[k + 1] == capital(p.word[k + 1]));
                assert('a' <= p.word[k + 1] <= 'z');
            }
            assert(ascii_lower(capital(c)) == c);
        } else {
            assert(text[k] == c);
        }
        assert(before + p.word.take(n as int) =~= (before + p.word.take(k)).push(c));
    }
}

/// The capital or small letter that a word starts with.
proof fn lemma_word(name: Seq<char>, at: nat, p: Part, text: Seq<char>)
    requires
        is_word(p),
        text == part_written(Part { gap: Seq::empty(), ..p }),
        stands(name, at as int, text),
        p.shape is Upper ==> at + text.len() == name.len() || !lowercase(
            name[at + text.len() as int],
        ),
        ({
            let st = snake_upto(name, at);
            ||| st.after_underscore
            ||| st.out.len() == 0 && (at > 0 ==> !lowercase(name[at - 1]) && !('0' <= name[at - 1]
                <= '9')) && !st.after_upper
            ||| at > 0 && !(p.shape is Lower) && (lowercase(name[at - 1]) || '0' <= name[at - 1]
                <= '9')
            ||| at > 0 && st.after_upper && p.shape is Capital && p.word.len() > 1 && 'a'
                <= p.word[1] <= 'z'
        }),
    ensures
        ({
            let before = snake_upto(name, at);
            let st = snake_upto(name, at + p.word.len());
            &&& text.len() == p.word.len()
            &&& st.out == (if before.after_underscore || before.out.len() == 0 && !(at > 0 && !(
            p.shape is Lower) && (lowercase(name[at - 1]) || '0' <= name[at - 1] <= '9')) && !(at
                > 0 && before.after_upper) {
                before.out
            } else {
                before.out.push('_')
            }) + p.word
            &&& !st.after_underscore
            &&& st.after_upper == (p.shape is Upper || (p.shape is Capital && p.word.len() == 1))
        }),
{
    let st = snake_upto(name, at);
    assert(name[at as int + 0] == text[0]);
    assert(text[0] == if p.shape is Lower {
        p.word[0]
    } else {
        capital(p.word[0])
    });
    assert(ascii_lower(capital(p.word[0])) == p.word[0]);
    if p.shape is Capital && p.word.len() > 1 {
        assert(name[at as int + 1] == text[1]);
        assert(text[1] == p.word[1]);
    }
    let next = snake_upto(name, at + 1);
    assert(next.out.drop_last().push(p.word[0]) =~= next.out);
    lemma_tail(name, at, p, text, p.word.len(), next.out.drop_last());
    assert(p.word.take(p.word.len() as int) =~= p.word);
}

proof fn lemma_parts(name: Seq<char>, parts: Seq<Part>)
    requires
        are_parts(parts),
        parts.len() > 0,
        stands(name, 0, name_written(parts)),
        parts.last().shape is Upper ==> name_written(parts).len() == name.len() || !lowercase(
            name[name_written(parts).len() as int],
        ),
    ensures
        ({
            let at = name_written(parts).len();
            let p = parts.last();
            let st = snake_upto(name, at);
            &&& at > 0
            &&& st.out == joined(parts)
            &&& st.out.len() > 0
            &&& !st.after_underscore
            &&& st.after_upper == (p.shape is Upper || (p.shape is Capital && p.word.len() == 1))
            &&& !st.after_upper ==> lowercase(name[at - 1]) || '0' <= name[at - 1] <= '9'
        }),
    decreases parts.len(),
{
    let front = parts.drop_last();
    let p = parts.last();
    let whole = name_written(parts);
    let before = name_written(front);
    let text = part_written(Part { gap: Seq::empty(), ..p });
    assert(part_written(p) =~= p.gap + text);
    assert(whole =~= before + (p.gap + text));
    let at = before.len();
    assert(is_word(parts[parts.len() - 1]));
    if front.len() > 0 {
        assert(are_parts(front)) by {
            assert forall|i: int| 0 <= i < front.len() implies is_word(#[trigger] front[i])
                && is_gap_text(front[i].gap) by {
                assert(front[i] == parts[i]);
            }
            assert forall|i: int| 0 < i < front.len() implies told_apart(
                front[i - 1],
                #[trigger] front[i],
            ) by {
                assert(front[i] == parts[i] && front[i - 1] == parts[i - 1]);
            }
        }
        assert(told_apart(parts[parts.len() - 2], parts[parts.len() - 1]));
        assert forall|i: int| 0 <= i < before.len() implies name[0 + i] == #[trigger] before[i] by {
            assert(whole[i] == before[i]);
        }
        assert(name[at as int] == whole[at as int]);
        assert(whole[at as int] == (p.gap + text)[0]);
        if p.gap.len() > 0 {
            assert(p.gap[0] == (p.gap + text)[0]);
        } else {
            assert(text[0] == (p.gap + text)[0]);
        }
        lemma_parts(name, front);
    } else {
        assert(before =~= Seq::<char>::empty());
    }
    assert forall|i: int| 0 <= i < p.gap.len() implies name[at + i] == #[trigger] p.gap[i] by {
        assert(whole[at + i] == p.gap[i]);
    }
    lemma_gap(name, at, p.gap, p.gap.len());
    let start = at + p.gap.len();
    assert forall|i: int| 0 <= i < text.len() implies name[start + i] == #[trigger] text[i] by {
        assert(whole[start + i] == text[i]);
    }
    if p.gap.len() > 0 {
        assert(name[at + (p.gap.len() - 1)] == p.gap[p.gap.len() - 1]);
    }
    assert(text.len() == p.word.len());
    assert(whole.len() == start + text.len());
    lemma_word(name, start, p, text);
    assert(name[start + (text.len() - 1)] == text[text.len() - 1]);
    let last = p.word[p.word.len() - 1];
    assert('a' <= last <= 'z' || (!(p.shape is Upper) && '0' <= last <= '9'));
    if front.len() > 0 {
        assert(snake_upto(name, start).out.len() > 0);
        assert(joined(parts) =~= joined(front).push('_') + p.word);
    } else {
        assert(joined(parts) == parts[0].word);
        assert(snake_upto(name, whole.len()).out =~= p.word);
    }
}

/// The words of a name come out with one underscore between each two, however
/// the name tells them apart: written in small letters, with a capital first or
/// all in capitals, with anything but letters and digits between them or with
/// nothing but the change of case. What stands around the name is left out.
pub proof fn words_come_out_joined(parts: Seq<Part>, behind: Seq<char>)
    requires
        are_parts(parts),
        is_gap_text(behind),
    ensures
        snake(name_written(parts) + behind) == joined(parts),
{
    let whole = name_written(parts);
    let name = whole + behind;
    let at = whole.len();
    if parts.len() > 0 {
        if behind.len() > 0 {
            assert(name[at as int] == behind[0]);
        }
        lemma_parts(name, parts);
    } else {
        assert(whole =~= Seq::<char>::empty());
    }
    assert forall|i: int| 0 <= i < behind.len() implies name[at + i] == #[trigger] behind[i] by {}
    lemma_gap(name, at, behind, behind.len());
    let j = joined(parts);
    if parts.len() > 0 {
        let w = parts.last().word;
        assert(is_word(parts[parts.len() - 1]));
        assert(j.last() == w.last());
        assert(w[w.len() - 1] != '_');
        assert(j.push('_').drop_last() =~= j);
        reveal_with_fuel(trim_underscores, 2);
    }
}

} // verus!
