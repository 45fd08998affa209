//! Text as sequences of characters.
//!
//! Rules on text are stated over `Seq<char>` and computed over `Vec<char>`;
//! this module converts at the edges and holds the character classes.

use vstd::prelude::*;

verus! {

/// `String::push` appends one character to the end of the string.
pub assume_specification[ String::push ](s: &mut String, c: char)
    ensures
        final(s)@ == old(s)@.push(c),
;

/// The characters of a string.
pub fn chars_of(s: &str) -> (chars: Vec<char>)
    ensures
        chars@ == s@,
{
    let mut chars: Vec<char> = Vec::new();
    for c in it: s.chars()
        invariant
            it.seq() == s@,
            chars@ == s@.take(it.index() as int),
    {
        chars.push(c);
        assert(chars@ =~= s@.take(it.index() + 1));
    }
    assert(chars@ =~= s@);
    chars
}

/// The string of a run of characters.
pub fn text_of(chars: &[char]) -> (s: String)
    ensures
        s@ == chars@,
{
    let mut s = String::new();
    let mut i: usize = 0;
    while i < chars.len()
        invariant
            i <= chars@.len(),
            s@ == chars@.take(i as int),
        decreases chars.len() - i,
    {
        s.push(chars[i]);
        i = i + 1;
        assert(s@ =~= chars@.take(i as int));
    }
    assert(chars@.take(i as int) =~= chars@);
    s
}

/// Append a run of characters.
pub fn push_chars(out: &mut Vec<char>, more: &[char])
    ensures
        final(out)@ == old(out)@ + more@,
{
    let ghost start = out@;
    let mut i: usize = 0;
    while i < more.len()
        invariant
            i <= more@.len(),
            out@ == start + more@.take(i as int),
        decreases more.len() - i,
    {
        out.push(more[i]);
        i = i + 1;
        assert(out@ =~= start + more@.take(i as int));
    }
    assert(more@.take(i as int) =~= more@);
}

/// Append the characters of a string.
pub fn push_str(out: &mut Vec<char>, more: &str)
    ensures
        final(out)@ == old(out)@ + more@,
{
    let chars = chars_of(more);
    push_chars(out, &chars);
}

/// Copy a part of a run of characters.
pub fn part_of(s: &[char], from: usize, to: usize) -> (part: Vec<char>)
    requires
        from <= to <= s@.len(),
    ensures
        part@ == s@.subrange(from as int, to as int),
{
    let mut part: Vec<char> = Vec::new();
    let mut i: usize = from;
    while i < to
        invariant
            from <= i <= to <= s@.len(),
            part@ == s@.subrange(from as int, i as int),
        decreases to - i,
    {
        part.push(s[i]);
        i = i + 1;
        assert(part@ =~= s@.subrange(from as int, i as int));
    }
    part
}

/// Whether two runs of characters are equal.
pub fn same_chars(a: &[char], b: &[char]) -> (same: bool)
    ensures
        same == (a@ == b@),
{
    if a.len() != b.len() {
        return false;
    }
    let mut i: usize = 0;
    while i < a.len()
        invariant
            i <= a@.len(),
            a@.len() == b@.len(),
            forall|j: int| 0 <= j < i ==> a@[j] == b@[j],
        decreases a.len() - i,
    {
        if a[i] != b[i] {
            return false;
        }
        i = i + 1;
    }
    assert(a@ =~= b@);
    true
}

/// `pat` stands in `s` at position `i`.
pub open spec fn stands_at(s: Seq<char>, i: int, pat: Seq<char>) -> bool {
    &&& 0 <= i
    &&& i + pat.len() <= s.len()
    &&& s.subrange(i, i + pat.len()) == pat
}

/// A pattern stands where its characters do, one by one.
pub proof fn standing_is_character_by_character(s: Seq<char>, i: int, pat: Seq<char>)
    ensures
        stands_at(s, i, pat) <==> 0 <= i && i + pat.len() <= s.len() && forall|k: int|
            0 <= k < pat.len() ==> s[i + k] == #[trigger] pat[k],
{
    if 0 <= i && i + pat.len() <= s.len() {
        let part = s.subrange(i, i + pat.len());
        if stands_at(s, i, pat) {
            assert forall|k: int| 0 <= k < pat.len() implies s[i + k] == #[trigger] pat[k] by {
                assert(part[k] == s[i + k]);
            }
        }
        if forall|k: int| 0 <= k < pat.len() ==> s[i + k] == #[trigger] pat[k] {
            assert(part =~= pat);
        }
    }
}

/// Whether `pat` stands in `s` at position `i`.
pub fn starts_at(s: &[char], i: usize, pat: &[char]) -> (yes: bool)
    requires
        i <= s@.len(),
    ensures
        yes == stands_at(s@, i as int, pat@),
{
    let total: usize = s.len();
    if total - i < pat.len() {
        return false;
    }
    let mut j: usize = 0;
    while j < pat.len()
        invariant
            j <= pat@.len(),
            i + pat@.len() <= total == s@.len(),
            forall|k: int| 0 <= k < j ==> s@[i + k] == pat@[k],
        decreases pat.len() - j,
    {
        if s[i + j] != pat[j] {
            assert(s@.subrange(i as int, i + pat@.len())[j as int] == s@[i + j]);
            return false;
        }
        j = j + 1;
    }
    assert(s@.subrange(i as int, i + pat@.len()) =~= pat@);
    true
}

/// Where `pat` first stands in `s` at or after `from`.
pub open spec fn found_at(s: Seq<char>, from: int, pat: Seq<char>, at: Option<int>) -> bool {
    match at {
        Some(i) => from <= i && stands_at(s, i, pat) && forall|j: int|
            from <= j < i ==> !#[trigger] stands_at(s, j, pat),
        None => forall|j: int| from <= j <= s.len() ==> !#[trigger] stands_at(s, j, pat),
    }
}

/// The first position at or after `i` at which `pat` stands in `s`.
pub open spec fn first_found(s: Seq<char>, i: int, pat: Seq<char>) -> Option<int>
    decreases s.len() + 1 - i,
{
    if i < 0 || i > s.len() {
        None
    } else if stands_at(s, i, pat) {
        Some(i)
    } else {
        first_found(s, i + 1, pat)
    }
}

/// `first_found` by its defining property.
pub proof fn first_found_is_first(s: Seq<char>, i: int, pat: Seq<char>)
    requires
        0 <= i,
    ensures
        found_at(s, i, pat, first_found(s, i, pat)),
    decreases s.len() + 1 - i,
{
    if i <= s.len() && !stands_at(s, i, pat) {
        first_found_is_first(s, i + 1, pat);
    }
}

/// The first position at or after `from` at which `pat` stands in `s`.
pub fn find_from(s: &[char], from: usize, pat: &[char]) -> (at: Option<usize>)
    requires
        from <= s@.len(),
    ensures
        match at {
            Some(i) => i + pat@.len() <= s@.len() && from <= i && first_found(
                s@,
                from as int,
                pat@,
            ) == Some(i as int),
            None => first_found(s@, from as int, pat@) is None,
        },
{
    let mut i: usize = from;
    loop
        invariant
            from <= i <= s@.len(),
            first_found(s@, i as int, pat@) == first_found(s@, from as int, pat@),
        decreases s.len() - i,
    {
        if starts_at(s, i, pat) {
            return Some(i);
        }
        if i == s.len() {
            assert(first_found(s@, i + 1, pat@) is None);
            return None;
        }
        i = i + 1;
    }
}

/// The four characters JSON allows between tokens.
pub open spec fn json_space(c: char) -> bool {
    c == ' ' || c == '\t' || c == '\n' || c == '\r'
}

/// ASCII white space: the JSON four and the form feed.
pub open spec fn ascii_space(c: char) -> bool {
    json_space(c) || c == '\u{c}'
}

pub fn is_json_space(c: char) -> (yes: bool)
    ensures
        yes == json_space(c),
{
    c == ' ' || c == '\t' || c == '\n' || c == '\r'
}

pub fn is_ascii_space(c: char) -> (yes: bool)
    ensures
        yes == ascii_space(c),
{
    c == ' ' || c == '\t' || c == '\n' || c == '\r' || c == '\u{c}'
}

/// The characters with the Unicode White_Space property.
pub open spec fn white_space(c: char) -> bool {
    ||| '\t' <= c <= '\r'
    ||| c == ' '
    ||| c == '\u{85}'
    ||| c == '\u{a0}'
    ||| c == '\u{1680}'
    ||| '\u{2000}' <= c <= '\u{200a}'
    ||| c == '\u{2028}'
    ||| c == '\u{2029}'
    ||| c == '\u{202f}'
    ||| c == '\u{205f}'
    ||| c == '\u{3000}'
}

pub fn is_white_space(c: char) -> (yes: bool)
    ensures
        yes == white_space(c),
{
    ('\t' <= c && c <= '\r') || c == ' ' || c == '\u{85}' || c == '\u{a0}' || c == '\u{1680}' || (
    '\u{2000}' <= c && c <= '\u{200a}') || c == '\u{2028}' || c == '\u{2029}' || c == '\u{202f}' || c
        == '\u{205f}' || c == '\u{3000}'
}

/// White space by code point: the controls from tab to carriage return, the
/// space, the next-line control, and the spaces and separators of Unicode's
/// other blocks. JSON counts four of them, ASCII text the form feed too.
pub proof fn white_space_by_code_point(c: char)
    ensures
        ({
            let n = c as int;
            &&& white_space(c) <==> {
                ||| n == 9 || n == 10 || n == 11 || n == 12 || n == 13 || n == 32
                ||| n == 133 || n == 160 || n == 5760
                ||| 8192 <= n <= 8202
                ||| n == 8232 || n == 8233 || n == 8239 || n == 8287 || n == 12288
            }
            &&& json_space(c) <==> n == 9 || n == 10 || n == 13 || n == 32
            &&& ascii_space(c) <==> n == 9 || n == 10 || n == 12 || n == 13 || n == 32
        }),
{
}

/// Letters and digits of ASCII by code point, and the step between the cases.
pub proof fn ascii_letters_by_code_point(c: char)
    requires
        (c as int) < 128,
    ensures
        ({
            let n = c as int;
            &&& uppercase(c) <==> 65 <= n <= 90
            &&& lowercase(c) <==> 97 <= n <= 122
            &&& alphanumeric(c) <==> 48 <= n <= 57 || 65 <= n <= 90 || 97 <= n <= 122
            &&& ascii_lower(c) as int == if 65 <= n <= 90 {
                n + 32
            } else {
                n
            }
        }),
{
}

/// What `char::is_alphanumeric` answers.
pub uninterp spec fn unicode_alphanumeric(c: char) -> bool;

/// What `char::is_uppercase` answers.
pub uninterp spec fn unicode_uppercase(c: char) -> bool;

/// What `char::is_lowercase` answers.
pub uninterp spec fn unicode_lowercase(c: char) -> bool;

/// `char::is_alphanumeric`: whether the character has the Unicode properties
/// Alphabetic or Numeric. The answer is only named, not spelled out: it is a
/// table of the Unicode version the standard library was built with.
#[verifier::external_body]
fn std_is_alphanumeric(c: char) -> (yes: bool)
    ensures
        yes == unicode_alphanumeric(c),
{
    c.is_alphanumeric()
}

/// `char::is_uppercase`: whether the character has the Unicode property
/// Uppercase. The answer is only named: it is a Unicode table.
#[verifier::external_body]
fn std_is_uppercase(c: char) -> (yes: bool)
    ensures
        yes == unicode_uppercase(c),
{
    c.is_uppercase()
}

/// `char::is_lowercase`: whether the character has the Unicode property
/// Lowercase. The answer is only named: it is a Unicode table.
#[verifier::external_body]
fn std_is_lowercase(c: char) -> (yes: bool)
    ensures
        yes == unicode_lowercase(c),
{
    c.is_lowercase()
}

/// Letters and digits, in ASCII and beyond.
pub open spec fn alphanumeric(c: char) -> bool {
    if c <= '\u{7f}' {
        'a' <= c <= 'z' || 'A' <= c <= 'Z' || '0' <= c <= '9'
    } else {
        unicode_alphanumeric(c)
    }
}

/// Upper-case letters, in ASCII and beyond.
pub open spec fn uppercase(c: char) -> bool {
    if c <= '\u{7f}' {
        'A' <= c <= 'Z'
    } else {
        unicode_uppercase(c)
    }
}

/// Lower-case letters, in ASCII and beyond.
pub open spec fn lowercase(c: char) -> bool {
    if c <= '\u{7f}' {
        'a' <= c <= 'z'
    } else {
        unicode_lowercase(c)
    }
}

pub fn is_alphanumeric(c: char) -> (yes: bool)
    ensures
        yes == alphanumeric(c),
{
    if c <= '\u{7f}' {
        ('a' <= c && c <= 'z') || ('A' <= c && c <= 'Z') || ('0' <= c && c <= '9')
    } else {
        std_is_alphanumeric(c)
    }
}

pub fn is_uppercase(c: char) -> (yes: bool)
    ensures
        yes == uppercase(c),
{
    if c <= '\u{7f}' {
        'A' <= c && c <= 'Z'
    } else {
        std_is_uppercase(c)
    }
}

pub fn is_lowercase(c: char) -> (yes: bool)
    ensures
        yes == lowercase(c),
{
    if c <= '\u{7f}' {
        'a' <= c && c <= 'z'
    } else {
        std_is_lowercase(c)
    }
}

/// The lower-case form of an ASCII letter; any other character is itself.
pub open spec fn ascii_lower(c: char) -> char {
    if 'A' <= c <= 'Z' {
        (c as u8 + 32) as char
    } else {
        c
    }
}

pub fn to_ascii_lower(c: char) -> (r: char)
    ensures
        r == ascii_lower(c),
{
    if 'A' <= c && c <= 'Z' {
        ((c as u8) + 32) as char
    } else {
        c
    }
}

/// The decimal digits of a number.
pub open spec fn decimal(n: nat) -> Seq<char>
    decreases n,
{
    if n < 10 {
        seq![(48 + n) as char]
    } else {
        decimal(n / 10).push((48 + n % 10) as char)
    }
}

/// Append a number in decimal.
pub fn push_decimal(out: &mut Vec<char>, n: usize)
    ensures
        final(out)@ == old(out)@ + decimal(n as nat),
    decreases n,
{
    let ghost start = out@;
    if n >= 10 {
        push_decimal(out, n / 10);
    }
    let digit: u8 = (n % 10) as u8;
    out.push((48 + digit) as char);
    assert(out@ =~= start + decimal(n as nat));
}

/// The first position at or after `i` that holds no white space, or the end.
pub open spec fn past_space(s: Seq<char>, i: int) -> int
    decreases s.len() - i,
{
    if 0 <= i < s.len() && white_space(s[i]) {
        past_space(s, i + 1)
    } else {
        i
    }
}

/// One past the last position before `j` that holds no white space.
pub open spec fn before_space(s: Seq<char>, j: int) -> int
    decreases j,
{
    if 0 < j <= s.len() && white_space(s[j - 1]) {
        before_space(s, j - 1)
    } else {
        j
    }
}

/// Text without its leading white space.
pub open spec fn trim_start(s: Seq<char>) -> Seq<char> {
    s.subrange(past_space(s, 0), s.len() as int)
}

/// Text without its leading and its trailing white space.
pub open spec fn trimmed(s: Seq<char>) -> Seq<char> {
    let t = trim_start(s);
    t.take(before_space(t, t.len() as int))
}

pub proof fn lemma_past_space(s: Seq<char>, i: int)
    requires
        0 <= i <= s.len(),
    ensures
        i <= past_space(s, i) <= s.len(),
        forall|k: int| i <= k < past_space(s, i) ==> white_space(s[k]),
        past_space(s, i) < s.len() ==> !white_space(s[past_space(s, i)]),
    decreases s.len() - i,
{
    if i < s.len() && white_space(s[i]) {
        lemma_past_space(s, i + 1);
    }
}

pub proof fn lemma_before_space(s: Seq<char>, j: int)
    requires
        0 <= j <= s.len(),
    ensures
        0 <= before_space(s, j) <= j,
        forall|k: int| before_space(s, j) <= k < j ==> white_space(s[k]),
        before_space(s, j) > 0 ==> !white_space(s[before_space(s, j) - 1]),
    decreases j,
{
    if 0 < j && white_space(s[j - 1]) {
        lemma_before_space(s, j - 1);
    }
}

/// What trimming leaves has no white space at either end.
pub proof fn trimming_leaves_no_edge_space(s: Seq<char>)
    ensures
        trimmed(s).len() > 0 ==> !white_space(trimmed(s)[0]) && !white_space(trimmed(s).last()),
{
    lemma_past_space(s, 0);
    let t = trim_start(s);
    lemma_before_space(t, t.len() as int);
    if t.len() > 0 {
        assert(t[0] == s[past_space(s, 0)]);
    }
}

/// Text with no white space at either end is its own trimming.
pub proof fn trimming_keeps_trimmed_text(s: Seq<char>)
    requires
        s.len() > 0 ==> !white_space(s[0]) && !white_space(s.last()),
    ensures
        trimmed(s) == s,
{
    assert(trim_start(s) =~= s);
    assert(s.take(s.len() as int) =~= s);
}

/// White space around a text is trimmed off, and nothing else.
pub proof fn trimming_takes_off_what_surrounds(left: Seq<char>, s: Seq<char>, right: Seq<char>)
    requires
        forall|i: int| 0 <= i < left.len() ==> white_space(#[trigger] left[i]),
        forall|i: int| 0 <= i < right.len() ==> white_space(#[trigger] right[i]),
        s.len() > 0 ==> !white_space(s[0]) && !white_space(s.last()),
    ensures
        trimmed(left + s + right) == s,
        s.len() > 0 ==> trim_start(left + s + right) == s + right,
{
    let all = left + s + right;
    let n = left.len() as int;
    lemma_past_space(all, 0);
    let a = past_space(all, 0);
    if a < n {
        assert(all[a] == left[a]);
    }
    if s.len() > 0 {
        assert(all[n] == s[0]);
        assert(a == n);
        let t = trim_start(all);
        assert(t =~= s + right);
        lemma_before_space(t, t.len() as int);
        let b = before_space(t, t.len() as int);
        if b > s.len() {
            assert(t[b - 1] == right[b - 1 - s.len()]);
        }
        if b < s.len() {
            assert(t[s.len() - 1] == s.last());
        }
        assert(t.take(b) =~= s);
    } else {
        if a < all.len() {
            assert(all[a] == if a < n {
                left[a]
            } else {
                right[a - n]
            });
        }
        assert(trim_start(all) =~= Seq::<char>::empty());
        assert(trimmed(all) =~= s);
    }
}

/// Copy text without its leading white space.
pub fn without_leading_space(s: &[char]) -> (t: Vec<char>)
    ensures
        t@ == trim_start(s@),
{
    let total: usize = s.len();
    let mut i: usize = 0;
    while i < total && is_white_space(s[i])
        invariant
            i <= total == s@.len(),
            past_space(s@, i as int) == past_space(s@, 0),
        decreases total - i,
    {
        i = i + 1;
    }
    part_of(s, i, total)
}

/// Copy text without its leading and its trailing white space.
pub fn trim(s: &[char]) -> (t: Vec<char>)
    ensures
        t@ == trimmed(s@),
{
    let t = without_leading_space(s);
    let mut j: usize = t.len();
    while j > 0 && is_white_space(t[j - 1])
        invariant
            j <= t@.len(),
            before_space(t@, j as int) == before_space(t@, t@.len() as int),
        decreases j,
    {
        j = j - 1;
    }
    let out = part_of(&t, 0, j);
    assert(t@.subrange(0, j as int) =~= t@.take(j as int));
    out
}

/// Where `c` first stands at or after `i`, or the end of the text.
pub open spec fn index_from(s: Seq<char>, i: int, c: char) -> int
    decreases s.len() - i,
{
    if i < 0 || i >= s.len() || s[i] == c {
        if i < 0 || i > s.len() {
            s.len() as int
        } else {
            i
        }
    } else {
        index_from(s, i + 1, c)
    }
}

pub proof fn lemma_index_from(s: Seq<char>, i: int, c: char)
    requires
        0 <= i <= s.len(),
    ensures
        i <= index_from(s, i, c) <= s.len(),
        index_from(s, i, c) < s.len() ==> s[index_from(s, i, c)] == c,
        forall|k: int| i <= k < index_from(s, i, c) ==> s[k] != c,
    decreases s.len() - i,
{
    if i < s.len() && s[i] != c {
        lemma_index_from(s, i + 1, c);
    }
}

pub fn find_char(s: &[char], i: usize, c: char) -> (at: usize)
    requires
        i <= s@.len(),
    ensures
        at == index_from(s@, i as int, c),
        i <= at <= s@.len(),
        at < s@.len() ==> s@[at as int] == c,
{
    let mut at: usize = i;
    while at < s.len() && s[at] != c
        invariant
            i <= at <= s@.len(),
            index_from(s@, at as int, c) == index_from(s@, i as int, c),
        decreases s.len() - at,
    {
        at = at + 1;
    }
    at
}

/// A line without the carriage return that its line feed may carry along.
pub open spec fn chomped(line: Seq<char>) -> Seq<char> {
    if line.len() > 0 && line.last() == '\r' {
        line.drop_last()
    } else {
        line
    }
}

/// The lines of a text. A line ends with a line feed, before which one
/// carriage return is dropped; the last line may lack its line feed, and then
/// keeps all its characters.
pub open spec fn lines(s: Seq<char>) -> Seq<Seq<char>>
    decreases s.len(),
{
    if s.len() == 0 {
        Seq::empty()
    } else {
        let k = index_from(s, 0, '\n');
        if 0 <= k < s.len() {
            seq![chomped(s.take(k))] + lines(s.skip(k + 1))
        } else {
            seq![s]
        }
    }
}

/// The texts of a list of runs of characters.
pub open spec fn texts(v: Seq<Vec<char>>) -> Seq<Seq<char>> {
    Seq::new(v.len(), |i: int| v[i]@)
}

proof fn lemma_texts_push(v: Seq<Vec<char>>, x: Vec<char>)
    ensures
        texts(v.push(x)) == texts(v).push(x@),
{
    assert(texts(v.push(x)) =~= texts(v).push(x@));
}

/// Split a text into its lines.
pub fn split_lines(s: &[char]) -> (out: Vec<Vec<char>>)
    ensures
        texts(out@) == lines(s@),
{
    let total: usize = s.len();
    let mut out: Vec<Vec<char>> = Vec::new();
    let mut pos: usize = 0;
    assert(s@.skip(0) =~= s@);
    assert(texts(out@) + lines(s@) =~= lines(s@));
    while pos < total
        invariant
            pos <= total == s@.len(),
            texts(out@) + lines(s@.skip(pos as int)) == lines(s@),
        decreases total - pos,
    {
        let ghost rest = s@.skip(pos as int);
        let k: usize = find_char(s, pos, '\n');
        proof {
            lemma_index_from(s@, pos as int, '\n');
            lemma_index_from(rest, 0, '\n');
            let j = index_from(rest, 0, '\n');
            if pos + j < k {
                assert(s@[pos + j] == rest[j]);
            }
            if pos + j > k {
                assert(rest[k - pos] == s@[k as int]);
            }
            assert(pos + j == k);
        }
        let ghost before = texts(out@);
        if k == total {
            let line = part_of(s, pos, total);
            assert(line@ =~= rest);
            proof {
                lemma_texts_push(out@, line);
            }
            out.push(line);
            pos = total;
            assert(before + seq![rest] =~= texts(out@));
            assert(lines(s@.skip(pos as int)) =~= Seq::<Seq<char>>::empty());
            assert(texts(out@) + Seq::<Seq<char>>::empty() =~= texts(out@));
        } else {
            let end: usize = if k > pos && s[k - 1] == '\r' {
                k - 1
            } else {
                k
            };
            let line = part_of(s, pos, end);
            assert(rest.take(k - pos) =~= s@.subrange(pos as int, k as int));
            assert(line@ =~= chomped(rest.take(k - pos)));
            proof {
                lemma_texts_push(out@, line);
            }
            out.push(line);
            assert(rest.skip(k - pos + 1) =~= s@.skip(k + 1));
            assert(before + (seq![line@] + lines(s@.skip(k + 1))) =~= texts(out@) + lines(
                s@.skip(k + 1),
            ));
            pos = k + 1;
        }
    }
    assert(s@.skip(pos as int) =~= Seq::<char>::empty());
    assert(texts(out@) + Seq::<Seq<char>>::empty() =~= texts(out@));
    out
}

/// The value of a run of decimal digits.
pub open spec fn digits_value(s: Seq<char>) -> Option<nat>
    decreases s.len(),
{
    if s.len() == 0 {
        Some(0nat)
    } else if '0' <= s.last() <= '9' {
        match digits_value(s.drop_last()) {
            Some(n) => Some(10 * n + (s.last() as nat - 48) as nat),
            None => None,
        }
    } else {
        None
    }
}

/// A decimal number: digits, at least one, with one plus sign allowed before
/// them.
pub open spec fn number_value(s: Seq<char>) -> Option<nat> {
    let digits = if s.len() > 0 && s[0] == '+' {
        s.skip(1)
    } else {
        s
    };
    if digits.len() == 0 {
        None
    } else {
        digits_value(digits)
    }
}

proof fn lemma_digits_value_grows(s: Seq<char>, i: int)
    requires
        0 <= i <= s.len(),
    ensures
        digits_value(s.take(i)) is None ==> digits_value(s) is None,
        digits_value(s.take(i)) matches Some(n) ==> (digits_value(s) matches Some(m) ==> n <= m),
    decreases s.len() - i,
{
    if i == s.len() {
        assert(s.take(i) =~= s);
    } else {
        lemma_digits_value_grows(s, i + 1);
        assert(s.take(i + 1).drop_last() =~= s.take(i));
    }
}

/// Read a decimal number that fits in a `usize`.
pub fn parse_usize(s: &[char]) -> (n: Option<usize>)
    ensures
        match n {
            Some(n) => number_value(s@) == Some(n as nat),
            None => number_value(s@) is None || number_value(s@)->0 > usize::MAX,
        },
{
    let total: usize = s.len();
    let from: usize = if total > 0 && s[0] == '+' {
        1
    } else {
        0
    };
    let ghost digits = s@.skip(from as int);
    assert(s@.skip(0) =~= s@);
    if from == total {
        return None;
    }
    let mut n: usize = 0;
    let mut i: usize = from;
    assert(digits.take(0) =~= Seq::<char>::empty());
    while i < total
        invariant
            from <= i <= total == s@.len(),
            digits == s@.skip(from as int),
            digits_value(digits.take(i - from)) == Some(n as nat),
            number_value(s@) == digits_value(digits),
        decreases total - i,
    {
        let c: char = s[i];
        proof {
            assert(digits.take(i - from + 1).drop_last() =~= digits.take(i - from));
            assert(digits.take(i - from + 1).last() == c);
            lemma_digits_value_grows(digits, i - from + 1);
        }
        if c < '0' || c > '9' {
            return None;
        }
        let d: usize = (c as u32 - 48) as usize;
        if n > (usize::MAX - d) / 10 {
            return None;
        }
        n = n * 10 + d;
        i = i + 1;
    }
    assert(digits.take(i - from) =~= digits);
    Some(n)
}

/// Reading back the digits of a number gives the number.
pub proof fn decimal_reads_back(n: nat)
    ensures
        decimal(n).len() > 0,
        digits_value(decimal(n)) == Some(n),
        number_value(decimal(n)) == Some(n),
    decreases n,
{
    if n < 10 {
        let c = (48 + n) as char;
        assert(decimal(n) =~= seq![c]);
        assert(decimal(n).drop_last() =~= Seq::<char>::empty());
        assert(digits_value(Seq::<char>::empty()) == Some(0nat));
    } else {
        decimal_reads_back(n / 10);
        assert(decimal(n).drop_last() =~= decimal(n / 10));
        assert(decimal(n)[0] == decimal(n / 10)[0]);
    }
    lemma_decimal_first(n);
}

proof fn lemma_decimal_first(n: nat)
    ensures
        decimal(n).len() > 0,
        decimal(n)[0] != '+',
    decreases n,
{
    if n >= 10 {
        lemma_decimal_first(n / 10);
        assert(decimal(n)[0] == decimal(n / 10)[0]);
    }
}

/// Lines, each with its line feed behind it, and a carriage return before that
/// where `crlf` says so.
pub open spec fn with_line_feeds(list: Seq<Seq<char>>, crlf: bool) -> Seq<char>
    decreases list.len(),
{
    if list.len() == 0 {
        Seq::empty()
    } else {
        list[0] + (if crlf {
            seq!['\r', '\n']
        } else {
            seq!['\n']
        }) + with_line_feeds(list.skip(1), crlf)
    }
}

/// Lines come back as they were written, whichever way they end, with or
/// without a line feed behind the last one.
pub proof fn lines_read_back(list: Seq<Seq<char>>, last: Seq<char>, crlf: bool)
    requires
        forall|i: int, k: int|
            #![trigger list[i][k]]
            0 <= i < list.len() && 0 <= k < list[i].len() ==> list[i][k] != '\n',
        !crlf ==> forall|i: int|
            0 <= i < list.len() && (#[trigger] list[i]).len() > 0 ==> list[i].last() != '\r',
        forall|k: int| 0 <= k < last.len() ==> #[trigger] last[k] != '\n',
    ensures
        lines(with_line_feeds(list, crlf) + last) == if last.len() == 0 {
            list
        } else {
            list.push(last)
        },
    decreases list.len(),
{
    let all = with_line_feeds(list, crlf) + last;
    if list.len() == 0 {
        assert(all =~= last);
        lemma_index_from(all, 0, '\n');
        if last.len() == 0 {
            assert(lines(all) =~= list);
        } else {
            assert(lines(all) =~= list.push(last));
        }
    } else {
        let first = list[0];
        let rest = list.skip(1);
        let end = if crlf {
            seq!['\r', '\n']
        } else {
            seq!['\n']
        };
        let after = with_line_feeds(rest, crlf) + last;
        assert(all =~= first + end + after);
        let k = first.len() + end.len() - 1;
        assert(all[k] == '\n');
        lemma_index_from(all, 0, '\n');
        let j = index_from(all, 0, '\n');
        if j < k {
            if j < first.len() {
                assert(all[j] == list[0][j]);
            } else {
                assert(all[j] == '\r');
            }
        }
        assert(j == k);
        assert(all.skip(k + 1) =~= after);
        if crlf {
            assert(all.take(k) =~= first.push('\r'));
            assert(chomped(all.take(k)) =~= first);
        } else {
            assert(all.take(k) =~= first);
            assert(chomped(first) == first);
        }
        assert forall|i: int, c: int|
            #![trigger rest[i][c]]
            0 <= i < rest.len() && 0 <= c < rest[i].len() implies rest[i][c] != '\n' by {
            assert(rest[i] == list[i + 1]);
            assert(list[i + 1][c] == rest[i][c]);
        }
        if !crlf {
            assert forall|i: int| 0 <= i < rest.len() && (#[trigger] rest[i]).len() > 0 implies
                rest[i].last() != '\r' by {
                assert(rest[i] == list[i + 1]);
            }
        }
        lines_read_back(rest, last, crlf);
        if last.len() == 0 {
            assert(seq![first] + rest =~= list);
        } else {
            assert(seq![first] + rest.push(last) =~= list.push(last));
        }
    }
}

/// A number is read from digits with or without a plus sign before them, each
/// digit worth ten times the one behind it, and from nothing else.
pub proof fn a_number_is_digits_with_one_sign(s: Seq<char>, c: char)
    ensures
        number_value(s) is Some && '0' <= c <= '9' ==> number_value(s.push(c)) == Some(
            (10 * number_value(s)->0 + (c as int - 48)) as nat,
        ),
        !('0' <= c <= '9') && c != '+' ==> number_value(s.push(c)) is None,
        s.len() > 0 && !('0' <= c <= '9') ==> number_value(s.push(c)) is None,
        '0' <= c <= '9' ==> number_value(seq![c]) == Some((c as int - 48) as nat),
        '0' <= c <= '9' ==> number_value(seq!['+', c]) == Some((c as int - 48) as nat),
        number_value(Seq::empty()) is None,
        number_value(seq!['+']) is None,
{
    reveal_with_fuel(digits_value, 3);
    let t = s.push(c);
    assert(t.drop_last() =~= s);
    if s.len() > 0 {
        assert(t[0] == s[0]);
        assert(t.skip(1) =~= s.skip(1).push(c));
        assert(s.skip(1).push(c).drop_last() =~= s.skip(1));
    }
    assert(seq![c].drop_last() =~= Seq::<char>::empty());
    assert(seq!['+', c].skip(1) =~= seq![c]);
    assert(seq!['+'].skip(1) =~= Seq::<char>::empty());
    assert(digits_value(Seq::<char>::empty()) == Some(0nat));
    if s.len() == 0 {
        assert(t =~= seq![c]);
    }
}

/// A number in decimal is made of digits, at least one.
pub proof fn decimals_are_digits(n: nat)
    ensures
        decimal(n).len() > 0,
        forall|k: int| 0 <= k < decimal(n).len() ==> '0' <= #[trigger] decimal(n)[k] <= '9',
    decreases n,
{
    if n >= 10 {
        decimals_are_digits(n / 10);
        let c = (48 + n % 10) as char;
        assert('0' <= c <= '9');
        assert(decimal(n) == decimal(n / 10).push(c));
    } else {
        let c = (48 + n) as char;
        assert('0' <= c <= '9');
        assert(decimal(n) == seq![c]);
    }
}

} // verus!
