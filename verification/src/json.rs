//! Reading JSON text without building it.
//!
//! Nothing here validates: each function says where something ends, and text
//! that ends too early ends at the end of the text.

use vstd::prelude::*;
use crate::text::{is_ascii_space, ascii_space, part_of, same_chars, stands_at, starts_at};

verus! {

/// The first position at or after `i` that is not ASCII white space.
pub open spec fn skip_space(s: Seq<char>, i: int) -> int
    decreases s.len() - i,
{
    if 0 <= i < s.len() && ascii_space(s[i]) {
        skip_space(s, i + 1)
    } else {
        i
    }
}

pub proof fn lemma_skip_space(s: Seq<char>, i: int)
    requires
        0 <= i <= s.len(),
    ensures
        i <= skip_space(s, i) <= s.len(),
    decreases s.len() - i,
{
    if i < s.len() && ascii_space(s[i]) {
        lemma_skip_space(s, i + 1);
    }
}

pub fn after_space(s: &[char], i: usize) -> (j: usize)
    requires
        i <= s@.len(),
    ensures
        j == skip_space(s@, i as int),
        i <= j <= s@.len(),
{
    let mut j: usize = i;
    while j < s.len() && is_ascii_space(s[j])
        invariant
            i <= j <= s@.len(),
            skip_space(s@, j as int) == skip_space(s@, i as int),
        decreases s.len() - j,
    {
        j = j + 1;
    }
    j
}

/// Where the string whose content starts at `i` closes: its closing quote, or
/// the end of the text. A backslash hides the character after it.
pub open spec fn string_end(s: Seq<char>, i: int) -> int
    decreases s.len() - i,
{
    if i < 0 || i >= s.len() {
        s.len() as int
    } else if s[i] == '"' {
        i
    } else if s[i] == '\\' {
        if i + 2 <= s.len() {
            string_end(s, i + 2)
        } else {
            s.len() as int
        }
    } else {
        string_end(s, i + 1)
    }
}

pub proof fn lemma_string_end(s: Seq<char>, i: int)
    requires
        0 <= i <= s.len(),
    ensures
        i <= string_end(s, i) <= s.len(),
        string_end(s, i) < s.len() ==> s[string_end(s, i)] == '"',
    decreases s.len() - i,
{
    if i < s.len() && s[i] != '"' {
        if s[i] == '\\' {
            if i + 2 <= s.len() {
                lemma_string_end(s, i + 2);
            }
        } else {
            lemma_string_end(s, i + 1);
        }
    }
}

pub fn end_of_string(s: &[char], i: usize) -> (e: usize)
    requires
        i <= s@.len(),
    ensures
        e == string_end(s@, i as int),
        i <= e <= s@.len(),
        e < s@.len() ==> s@[e as int] == '"',
{
    let total: usize = s.len();
    let mut e: usize = i;
    while e < total
        invariant
            i <= e <= total == s@.len(),
            string_end(s@, e as int) == string_end(s@, i as int),
        decreases total - e,
    {
        if s[e] == '"' {
            return e;
        }
        if s[e] == '\\' {
            if total - e < 2 {
                return total;
            }
            e = e + 2;
        } else {
            e = e + 1;
        }
    }
    e
}

/// Where the object or array that is open at `depth` levels closes: just past
/// its closing bracket, or the end of the text. Brackets inside strings do not
/// count.
pub open spec fn close_end(s: Seq<char>, i: int, depth: nat) -> int
    decreases s.len() - i,
{
    if i < 0 || i >= s.len() || depth == 0 {
        if i < s.len() && 0 <= i {
            i
        } else {
            s.len() as int
        }
    } else if s[i] == '"' {
        let e = string_end(s, i + 1);
        if i < e < s.len() {
            close_end(s, e + 1, depth)
        } else {
            s.len() as int
        }
    } else if s[i] == '{' || s[i] == '[' {
        close_end(s, i + 1, depth + 1)
    } else if s[i] == '}' || s[i] == ']' {
        if depth == 1 {
            i + 1
        } else {
            close_end(s, i + 1, (depth - 1) as nat)
        }
    } else {
        close_end(s, i + 1, depth)
    }
}

pub fn end_of_block(s: &[char], i: usize) -> (e: usize)
    requires
        1 <= i <= s@.len(),
    ensures
        e == close_end(s@, i as int, 1),
        i <= e <= s@.len(),
{
    let total: usize = s.len();
    let mut depth: usize = 1;
    let mut e: usize = i;
    while e < total
        invariant
            1 <= i <= e <= total == s@.len(),
            1 <= depth <= 1 + e - i,
            close_end(s@, e as int, depth as nat) == close_end(s@, i as int, 1),
        decreases total - e,
    {
        let c: char = s[e];
        if c == '"' {
            let q: usize = end_of_string(s, e + 1);
            if q == total {
                return total;
            }
            e = q + 1;
        } else if c == '{' || c == '[' {
            depth = depth + 1;
            e = e + 1;
        } else if c == '}' || c == ']' {
            if depth == 1 {
                return e + 1;
            }
            depth = depth - 1;
            e = e + 1;
        } else {
            e = e + 1;
        }
    }
    e
}

/// Where the braces stand that are still open at `at`, outermost first,
/// reading on from `i` with `open` open there. Braces inside strings do not
/// count.
pub open spec fn open_braces(s: Seq<char>, i: int, at: int, open: Seq<int>) -> Seq<int>
    decreases s.len() - i,
{
    if i < 0 || i >= at || i >= s.len() {
        open
    } else if s[i] == '"' {
        let e = string_end(s, i + 1);
        if i < e < s.len() {
            open_braces(s, e + 1, at, open)
        } else {
            open
        }
    } else if s[i] == '{' {
        open_braces(s, i + 1, at, open.push(i))
    } else if s[i] == '}' && open.len() > 0 {
        open_braces(s, i + 1, at, open.drop_last())
    } else {
        open_braces(s, i + 1, at, open)
    }
}

/// Places in a text, as numbers.
pub open spec fn places(list: Seq<usize>) -> Seq<int> {
    list.map_values(|i: usize| i as int)
}

/// Where the braces stand that are still open at `at`, outermost first.
pub fn braces_open_at(s: &[char], at: usize) -> (open: Vec<usize>)
    ensures
        places(open@) == open_braces(s@, 0, at as int, Seq::empty()),
        forall|k: int| 0 <= k < open@.len() ==> #[trigger] open@[k] < s@.len(),
{
    let total: usize = s.len();
    let mut open: Vec<usize> = Vec::new();
    let mut i: usize = 0;
    assert(places(open@) =~= Seq::<int>::empty());
    while i < at && i < total
        invariant
            i <= total == s@.len(),
            open_braces(s@, i as int, at as int, places(open@)) == open_braces(
                s@,
                0,
                at as int,
                Seq::empty(),
            ),
            forall|k: int| 0 <= k < open@.len() ==> #[trigger] open@[k] < s@.len(),
        decreases total - i,
    {
        let ghost before = open@;
        let c: char = s[i];
        if c == '"' {
            let e: usize = end_of_string(s, i + 1);
            if e == total {
                return open;
            }
            i = e + 1;
        } else {
            if c == '{' {
                open.push(i);
                assert(places(open@) =~= places(before).push(i as int));
            } else if c == '}' && open.len() > 0 {
                open.pop();
                assert(places(open@) =~= places(before).drop_last());
            }
            i = i + 1;
        }
    }
    open
}

/// A character that ends a bare value.
pub open spec fn ends_bare(c: char) -> bool {
    c == ',' || c == '}' || c == ']' || ascii_space(c)
}

/// Where a bare value (a number, `true`, `null`) that has reached `i` ends.
pub open spec fn bare_end(s: Seq<char>, i: int) -> int
    decreases s.len() - i,
{
    if 0 <= i < s.len() && !ends_bare(s[i]) {
        bare_end(s, i + 1)
    } else {
        i
    }
}

fn end_of_bare(s: &[char], i: usize) -> (e: usize)
    requires
        i <= s@.len(),
    ensures
        e == bare_end(s@, i as int),
        i <= e <= s@.len(),
{
    let mut e: usize = i;
    while e < s.len()
        invariant
            i <= e <= s@.len(),
            bare_end(s@, e as int) == bare_end(s@, i as int),
        decreases s.len() - e,
    {
        let c: char = s[e];
        if c == ',' || c == '}' || c == ']' || is_ascii_space(c) {
            return e;
        }
        e = e + 1;
    }
    e
}

/// Where the value that starts at `i` ends.
pub open spec fn value_end(s: Seq<char>, i: int) -> int {
    if i < 0 || i >= s.len() {
        s.len() as int
    } else if s[i] == '"' {
        let e = string_end(s, i + 1);
        if e < s.len() {
            e + 1
        } else {
            e
        }
    } else if s[i] == '{' || s[i] == '[' {
        close_end(s, i + 1, 1)
    } else {
        bare_end(s, i)
    }
}

pub fn end_of_value(s: &[char], i: usize) -> (e: usize)
    requires
        i <= s@.len(),
    ensures
        e == value_end(s@, i as int),
        i <= e <= s@.len(),
{
    if i == s.len() {
        return i;
    }
    let c: char = s[i];
    if c == '"' {
        let e: usize = end_of_string(s, i + 1);
        if e < s.len() {
            e + 1
        } else {
            e
        }
    } else if c == '{' || c == '[' {
        end_of_block(s, i + 1)
    } else {
        end_of_bare(s, i)
    }
}

/// One member of an object: where its key's content and its value lie.
#[derive(Debug, Clone, Copy, PartialEq, Eq, Structural)]
pub struct Member {
    pub key_from: usize,
    pub key_to: usize,
    pub value: usize,
}

/// The member whose key may start at `i`, and where its value ends; `None`
/// where no quoted key with a colon stands there.
pub open spec fn member_at(s: Seq<char>, i: int) -> Option<(Member, int)> {
    let a = skip_space(s, i);
    if a < s.len() && s[a] == '"' {
        let e = string_end(s, a + 1);
        let b = skip_space(s, e + 1);
        if e < s.len() && b < s.len() && s[b] == ':' {
            let v = skip_space(s, b + 1);
            Some(
                (
                    Member { key_from: (a + 1) as usize, key_to: e as usize, value: v as usize },
                    value_end(s, v),
                ),
            )
        } else {
            None
        }
    } else {
        None
    }
}

/// The members of the object whose content starts at `i`, up to the first
/// place where no further member follows.
pub open spec fn members(s: Seq<char>, i: int) -> Seq<Member>
    decreases s.len() - i,
{
    if i < 0 || i > s.len() {
        Seq::empty()
    } else {
        match member_at(s, i) {
            Some((m, e)) => {
                let c = skip_space(s, e);
                if i < e && e <= c < s.len() && s[c] == ',' {
                    seq![m] + members(s, c + 1)
                } else {
                    seq![m]
                }
            },
            None => Seq::empty(),
        }
    }
}

fn find_member(s: &[char], i: usize) -> (found: Option<(Member, usize)>)
    requires
        i <= s@.len(),
    ensures
        match found {
            Some((m, e)) => {
                &&& member_at(s@, i as int) == Some((m, e as int))
                &&& i < m.key_from <= m.key_to < m.value <= e <= s@.len()
            },
            None => member_at(s@, i as int) is None,
        },
{
    let a: usize = after_space(s, i);
    if a == s.len() || s[a] != '"' {
        return None;
    }
    let e: usize = end_of_string(s, a + 1);
    if e == s.len() {
        return None;
    }
    let b: usize = after_space(s, e + 1);
    if b == s.len() || s[b] != ':' {
        return None;
    }
    let v: usize = after_space(s, b + 1);
    let end: usize = end_of_value(s, v);
    Some((Member { key_from: a + 1, key_to: e, value: v }, end))
}

/// The members of the object whose content starts at `i`.
pub fn members_of(s: &[char], i: usize) -> (list: Vec<Member>)
    requires
        i <= s@.len(),
    ensures
        list@ == members(s@, i as int),
        forall|k: int|
            0 <= k < list@.len() ==> (#[trigger] list@[k]).key_from <= list@[k].key_to
                < list@[k].value <= s@.len(),
{
    let mut list: Vec<Member> = Vec::new();
    let mut at: usize = i;
    loop
        invariant
            i <= at <= s@.len(),
            list@ + members(s@, at as int) == members(s@, i as int),
            forall|k: int|
                0 <= k < list@.len() ==> (#[trigger] list@[k]).key_from <= list@[k].key_to
                    < list@[k].value <= s@.len(),
        decreases s.len() - at,
    {
        match find_member(s, at) {
            Some((m, e)) => {
                let ghost before = list@;
                list.push(m);
                let c: usize = after_space(s, e);
                if c < s.len() && s[c] == ',' {
                    assert(before + (seq![m] + members(s@, c + 1)) =~= list@ + members(s@, c + 1));
                    at = c + 1;
                } else {
                    assert(before + seq![m] =~= list@);
                    return list;
                }
            },
            None => {
                assert(list@ + Seq::<Member>::empty() =~= list@);
                return list;
            },
        }
    }
}

/// Where the value's content starts if `quoted_key`, a colon and then `open`
/// stand at `i`, with white space around the colon.
pub open spec fn key_then(s: Seq<char>, i: int, quoted_key: Seq<char>, open: char) -> Option<int> {
    if stands_at(s, i, quoted_key) {
        let a = skip_space(s, i + quoted_key.len());
        if a < s.len() && s[a] == ':' {
            let b = skip_space(s, a + 1);
            if b < s.len() && s[b] == open {
                Some(b + 1)
            } else {
                None
            }
        } else {
            None
        }
    } else {
        None
    }
}

pub fn value_of_key(s: &[char], i: usize, quoted_key: &[char], open: char) -> (at: Option<usize>)
    requires
        i <= s@.len(),
    ensures
        match at {
            Some(v) => key_then(s@, i as int, quoted_key@, open) == Some(v as int) && i
                + quoted_key@.len() < v <= s@.len(),
            None => key_then(s@, i as int, quoted_key@, open) is None,
        },
{
    if !starts_at(s, i, quoted_key) {
        return None;
    }
    let total: usize = s.len();
    let a: usize = after_space(s, i + quoted_key.len());
    if a == total || s[a] != ':' {
        return None;
    }
    let b: usize = after_space(s, a + 1);
    if b == total || s[b] != open {
        return None;
    }
    Some(b + 1)
}

/// Whether a member's key is `key`.
pub open spec fn has_key(s: Seq<char>, m: Member, key: Seq<char>) -> bool {
    s.subrange(m.key_from as int, m.key_to as int) == key
}

pub fn key_is(s: &[char], m: &Member, key: &[char]) -> (yes: bool)
    requires
        m.key_from <= m.key_to <= s@.len(),
    ensures
        yes == has_key(s@, *m, key@),
{
    let k = part_of(s, m.key_from, m.key_to);
    same_chars(&k, key)
}

} // verus!
