//! Grammar-constrained decoding.
//!
//! The tool-name slot and the argument-key slots of the model's output may
//! only hold names and keys that the caller declared. A byte trie holds what
//! a slot may still become; a small state machine over the output bytes says
//! which slot, if any, the next byte falls into.
//!
//! Output format: `[{"name":"<tool_name>","arguments":{"<key>":value}}]`.

use vstd::prelude::*;
use vstd::utf8::{decode_utf8, valid_utf8};

use crate::trie::{prefix_of, reachable, Trie};

pub use crate::tools::ToolDef;

verus! {

/// Which slot the next byte falls into.
#[derive(Debug, Clone, Copy, PartialEq, Eq, Structural)]
pub enum JsonState {
    /// No constraint.
    Free,
    /// Inside the value of a `"name"` key.
    InName,
    /// Inside a key of the arguments object.
    InArgKey,
}

/// Bytes of output the machine looks back on: as many as the longest trigger.
pub const TAIL_LEN: usize = 13;

/// `"name":"`, which opens the tool-name slot.
pub open spec fn name_trigger() -> Seq<u8> {
    seq!['"' as u8, 'n' as u8, 'a' as u8, 'm' as u8, 'e' as u8, '"' as u8, ':' as u8, '"' as u8]
}

/// `"arguments":{`, which opens the arguments object.
pub open spec fn args_trigger() -> Seq<u8> {
    seq!['"' as u8, 'a' as u8, 'r' as u8, 'g' as u8, 'u' as u8, 'm' as u8, 'e' as u8, 'n' as u8, 't' as u8, 's' as u8, '"' as u8, ':' as u8, '{' as u8]
}

/// `{"` and `,"`, which open a key slot in the arguments object.
pub open spec fn first_key_trigger() -> Seq<u8> {
    seq!['{' as u8, '"' as u8]
}

pub open spec fn next_key_trigger() -> Seq<u8> {
    seq![',' as u8, '"' as u8]
}

/// What `String::from_utf8_lossy` reads off a run of bytes.
pub uninterp spec fn utf8_lossy(bytes: Seq<u8>) -> Seq<char>;

/// `String::from_utf8_lossy` reads bytes as UTF-8. Valid bytes are decoded as
/// they are; how invalid ones are replaced is only named.
#[verifier::external_body]
fn lossy(bytes: &[u8]) -> (s: String)
    ensures
        s@ == utf8_lossy(bytes@),
        valid_utf8(bytes@) ==> s@ == decode_utf8(bytes@),
{
    String::from_utf8_lossy(bytes).into_owned()
}

/// The machine's state, as values.
pub struct Machine {
    pub state: JsonState,
    /// The tool name that was captured last.
    pub function: Seq<u8>,
    /// What the open slot holds so far.
    pub buf: Seq<u8>,
    /// The last bytes of output.
    pub tail: Seq<u8>,
    pub in_string: bool,
    pub escaped: bool,
    pub in_arguments: bool,
    /// Open brackets, counted from the arguments object.
    pub depth: usize,
}

/// The last `keep` bytes.
pub open spec fn last_bytes(s: Seq<u8>, keep: nat) -> Seq<u8> {
    if s.len() <= keep {
        s
    } else {
        s.skip(s.len() - keep)
    }
}

/// `s` ends with `pat`.
pub open spec fn ends_with(s: Seq<u8>, pat: Seq<u8>) -> bool {
    pat.len() <= s.len() && s.skip(s.len() - pat.len()) == pat
}

/// One more byte of output.
pub open spec fn step(m: Machine, b: u8) -> Machine {
    let m = Machine { tail: last_bytes(m.tail.push(b), TAIL_LEN as nat), ..m };
    let quote = b == '"' as u8;
    match m.state {
        JsonState::InName => if quote {
            Machine { state: JsonState::Free, function: m.buf, buf: Seq::empty(), ..m }
        } else {
            Machine { buf: m.buf.push(b), ..m }
        },
        JsonState::InArgKey => if quote {
            Machine { state: JsonState::Free, buf: Seq::empty(), ..m }
        } else {
            Machine { buf: m.buf.push(b), ..m }
        },
        JsonState::Free => if m.in_string {
            if m.escaped {
                Machine { escaped: false, ..m }
            } else if b == '\\' as u8 {
                Machine { escaped: true, ..m }
            } else if quote {
                Machine { in_string: false, ..m }
            } else {
                m
            }
        } else if quote {
            if !m.in_arguments && ends_with(m.tail, name_trigger()) {
                Machine { state: JsonState::InName, buf: Seq::empty(), ..m }
            } else if m.in_arguments && m.depth == 1 && (ends_with(m.tail, first_key_trigger())
                || ends_with(m.tail, next_key_trigger())) {
                Machine { state: JsonState::InArgKey, buf: Seq::empty(), ..m }
            } else {
                Machine { in_string: true, escaped: false, ..m }
            }
        } else if b == '{' as u8 || b == '[' as u8 {
            if m.in_arguments {
                Machine { depth: deeper(m.depth), ..m }
            } else if b == '{' as u8 && ends_with(m.tail, args_trigger()) {
                Machine { in_arguments: true, depth: 1, ..m }
            } else {
                m
            }
        } else if b == '}' as u8 || b == ']' as u8 {
            if m.in_arguments && m.depth <= 1 {
                Machine { in_arguments: false, depth: 0, ..m }
            } else if m.in_arguments {
                Machine { depth: (m.depth - 1) as usize, ..m }
            } else {
                m
            }
        } else {
            m
        },
    }
}

/// One level further in.
pub open spec fn deeper(depth: usize) -> usize {
    if depth == usize::MAX {
        depth
    } else {
        (depth + 1) as usize
    }
}

/// The machine after a run of output.
pub open spec fn run(m: Machine, bytes: Seq<u8>) -> Machine
    decreases bytes.len(),
{
    if bytes.len() == 0 {
        m
    } else {
        step(run(m, bytes.drop_last()), bytes.last())
    }
}

/// The machine before any output.
pub open spec fn fresh_machine() -> Machine {
    Machine {
        state: JsonState::Free,
        function: Seq::empty(),
        buf: Seq::empty(),
        tail: Seq::empty(),
        in_string: false,
        escaped: false,
        in_arguments: false,
        depth: 0,
    }
}

/// Output fed in two parts leaves the machine where output fed at once does.
pub proof fn feeding_composes(m: Machine, a: Seq<u8>, b: Seq<u8>)
    ensures
        run(run(m, a), b) == run(m, a + b),
    decreases b.len(),
{
    if b.len() == 0 {
        assert(a + b =~= a);
    } else {
        feeding_composes(m, a, b.drop_last());
        assert((a + b).drop_last() =~= a + b.drop_last());
        assert((a + b).last() == b.last());
    }
}

/// Follows the output byte by byte and knows which slot it is in.
pub struct JsonStateMachine {
    pub state: JsonState,
    /// The tool name that was captured last.
    pub current_function: String,
    /// What the open slot holds so far.
    pub constrained_buf: Vec<u8>,
    /// The bytes of the tool name that was captured last.
    pub function: Vec<u8>,
    /// The last bytes of output.
    pub tail: Vec<u8>,
    pub in_string: bool,
    pub escaped: bool,
    pub in_arguments: bool,
    /// Open brackets, counted from the arguments object.
    pub depth: usize,
}

impl View for JsonStateMachine {
    type V = Machine;

    open spec fn view(&self) -> Machine {
        Machine {
            state: self.state,
            function: self.function@,
            buf: self.constrained_buf@,
            tail: self.tail@,
            in_string: self.in_string,
            escaped: self.escaped,
            in_arguments: self.in_arguments,
            depth: self.depth,
        }
    }
}

fn tail_is(tail: &[u8], pat: &[u8]) -> (yes: bool)
    ensures
        yes == ends_with(tail@, pat@),
{
    if pat.len() > tail.len() {
        return false;
    }
    let off: usize = tail.len() - pat.len();
    let mut i: usize = 0;
    while i < pat.len()
        invariant
            i <= pat@.len(),
            off + pat@.len() == tail@.len(),
            off + pat@.len() <= usize::MAX,
            forall|k: int| 0 <= k < i ==> tail@[off + k] == pat@[k],
        decreases pat.len() - i,
    {
        if tail[off + i] != pat[i] {
            assert(tail@.skip(off as int)[i as int] == tail@[off + i]);
            return false;
        }
        i = i + 1;
    }
    assert(tail@.skip(off as int) =~= pat@);
    true
}

impl JsonStateMachine {
    pub fn new() -> (m: Self)
        ensures
            m@ == fresh_machine(),
            m.current_function@ == utf8_lossy(Seq::empty()),
            m.current_function@ == Seq::<char>::empty(),
    {
        let function: Vec<u8> = Vec::new();
        let current_function = lossy(&function);
        assert(function@ =~= Seq::<u8>::empty());
        assert(decode_utf8(Seq::<u8>::empty()) =~= Seq::<char>::empty());
        JsonStateMachine {
            state: JsonState::Free,
            current_function,
            constrained_buf: Vec::new(),
            function,
            tail: Vec::new(),
            in_string: false,
            escaped: false,
            in_arguments: false,
            depth: 0,
        }
    }

    /// The name reads off the bytes that were captured.
    pub open spec fn wf(&self) -> bool {
        self.current_function@ == utf8_lossy(self.function@)
    }

    fn remember(&mut self, b: u8)
        ensures
            final(self)@ == (Machine {
                tail: last_bytes(old(self).tail@.push(b), TAIL_LEN as nat),
                ..old(self)@
            }),
            final(self).current_function == old(self).current_function,
            final(self).function == old(self).function,
    {
        self.tail.push(b);
        if self.tail.len() > TAIL_LEN {
            let drop: usize = self.tail.len() - TAIL_LEN;
            let kept = self.tail.split_off(drop);
            assert(kept@ =~= last_bytes(old(self).tail@.push(b), TAIL_LEN as nat));
            self.tail = kept;
        }
    }

    fn open_slot(&mut self, state: JsonState)
        ensures
            final(self)@ == (Machine { state, buf: Seq::empty(), ..old(self)@ }),
            final(self).current_function == old(self).current_function,
            final(self).function == old(self).function,
    {
        self.state = state;
        self.constrained_buf = Vec::new();
    }

    /// Feed one byte of output.
    pub fn feed_byte(&mut self, b: u8)
        requires
            old(self).wf(),
        ensures
            final(self).wf(),
            final(self)@ == step(old(self)@, b),
    {
        self.remember(b);
        let quote: bool = b == '"' as u8;
        match self.state {
            JsonState::InName => {
                if quote {
                    let mut name: Vec<u8> = Vec::new();
                    name.append(&mut self.constrained_buf);
                    self.current_function = lossy(&name);
                    self.function = name;
                    self.open_slot(JsonState::Free);
                } else {
                    self.constrained_buf.push(b);
                }
            },
            JsonState::InArgKey => {
                if quote {
                    self.open_slot(JsonState::Free);
                } else {
                    self.constrained_buf.push(b);
                }
            },
            JsonState::Free => {
                if self.in_string {
                    if self.escaped {
                        self.escaped = false;
                    } else if b == '\\' as u8 {
                        self.escaped = true;
                    } else if quote {
                        self.in_string = false;
                    }
                } else if quote {
                    self.open_string();
                } else if b == '{' as u8 || b == '[' as u8 {
                    if self.in_arguments {
                        if self.depth < usize::MAX {
                            self.depth = self.depth + 1;
                        }
                    } else if b == '{' as u8 && self.tail_is_args() {
                        self.in_arguments = true;
                        self.depth = 1;
                    }
                } else if b == '}' as u8 || b == ']' as u8 {
                    if self.in_arguments {
                        if self.depth <= 1 {
                            self.in_arguments = false;
                            self.depth = 0;
                        } else {
                            self.depth = self.depth - 1;
                        }
                    }
                }
            },
        }
    }

    fn tail_is_args(&self) -> (yes: bool)
        ensures
            yes == ends_with(self.tail@, args_trigger()),
    {
        let pat: [u8; 13] = [
            '"' as u8,
            'a' as u8,
            'r' as u8,
            'g' as u8,
            'u' as u8,
            'm' as u8,
            'e' as u8,
            'n' as u8,
            't' as u8,
            's' as u8,
            '"' as u8,
            ':' as u8,
            '{' as u8,
        ];
        assert(pat@ =~= args_trigger());
        tail_is(&self.tail, &pat)
    }

    /// A quote opens a string: one of the slots, or an ordinary one.
    fn open_string(&mut self)
        ensures
            final(self).current_function == old(self).current_function,
            final(self).function == old(self).function,
            final(self)@ == if !old(self).in_arguments && ends_with(
                old(self).tail@,
                name_trigger(),
            ) {
                Machine { state: JsonState::InName, buf: Seq::empty(), ..old(self)@ }
            } else if old(self).in_arguments && old(self).depth == 1 && (ends_with(
                old(self).tail@,
                first_key_trigger(),
            ) || ends_with(old(self).tail@, next_key_trigger())) {
                Machine { state: JsonState::InArgKey, buf: Seq::empty(), ..old(self)@ }
            } else {
                Machine { in_string: true, escaped: false, ..old(self)@ }
            },
    {
        let name: [u8; 8] = [
            '"' as u8,
            'n' as u8,
            'a' as u8,
            'm' as u8,
            'e' as u8,
            '"' as u8,
            ':' as u8,
            '"' as u8,
        ];
        let first: [u8; 2] = ['{' as u8, '"' as u8];
        let next: [u8; 2] = [',' as u8, '"' as u8];
        assert(name@ =~= name_trigger());
        assert(first@ =~= first_key_trigger());
        assert(next@ =~= next_key_trigger());
        if !self.in_arguments && tail_is(&self.tail, &name) {
            self.open_slot(JsonState::InName);
        } else if self.in_arguments && self.depth == 1 && (tail_is(&self.tail, &first) || tail_is(
            &self.tail,
            &next,
        )) {
            self.open_slot(JsonState::InArgKey);
        } else {
            self.in_string = true;
            self.escaped = false;
        }
    }

    /// Feed a run of output.
    pub fn feed(&mut self, bytes: &[u8])
        requires
            old(self).wf(),
        ensures
            final(self).wf(),
            final(self)@ == run(old(self)@, bytes@),
    {
        let ghost start = self@;
        let mut i: usize = 0;
        while i < bytes.len()
            invariant
                i <= bytes@.len(),
                self.wf(),
                self@ == run(start, bytes@.take(i as int)),
            decreases bytes.len() - i,
        {
            proof {
                assert(bytes@.take(i + 1).drop_last() =~= bytes@.take(i as int));
                assert(bytes@.take(i + 1).last() == bytes@[i as int]);
            }
            self.feed_byte(bytes[i]);
            i = i + 1;
        }
        assert(bytes@.take(i as int) =~= bytes@);
    }
}

/// Where the constraint stands, by the node its trie walk has reached.
#[derive(Debug, Clone, Copy, PartialEq, Eq, Structural)]
pub enum ConstraintState {
    /// Free generation.
    Free,
    /// Generating the tool name after `"name":"`.
    ToolName { trie_node: usize },
    /// Generating an argument key after `{"` or `,"` in the arguments object.
    ArgKey { trie_node: usize },
}

/// Bias of a token that must not be chosen; an allowed one has 0.
pub const BLOCKED: i32 = -1_000_000_000;

/// The bytes of a text.
pub open spec fn bytes_of(s: Seq<char>) -> Seq<u8> {
    vstd::utf8::encode_utf8(s)
}

/// The declared tool names, as the model spells them.
pub open spec fn tool_names(tools: Seq<ToolDef>) -> Set<Seq<u8>>
    decreases tools.len(),
{
    if tools.len() == 0 {
        Set::empty()
    } else {
        tool_names(tools.drop_last()).insert(bytes_of(tools.last().snake_name@))
    }
}

/// A list of keys, as a set of byte words.
pub open spec fn key_set(keys: Seq<String>) -> Set<Seq<u8>>
    decreases keys.len(),
{
    if keys.len() == 0 {
        Set::empty()
    } else {
        key_set(keys.drop_last()).insert(bytes_of(keys.last()@))
    }
}

/// The argument keys of the tool named `function`; the last declaration of a
/// name counts.
pub open spec fn keys_for(tools: Seq<ToolDef>, function: Seq<u8>) -> Option<Set<Seq<u8>>>
    decreases tools.len(),
{
    if tools.len() == 0 {
        None
    } else if bytes_of(tools.last().snake_name@) == function {
        Some(key_set(tools.last().param_keys@))
    } else {
        keys_for(tools.drop_last(), function)
    }
}

/// Where the first quote stands, or the length where there is none.
pub open spec fn first_quote(bytes: Seq<u8>) -> nat
    decreases bytes.len(),
{
    if bytes.len() == 0 || bytes[0] == '"' as u8 {
        0
    } else {
        1 + first_quote(bytes.skip(1))
    }
}

/// A token fits a slot that holds `w` so far: up to a quote its bytes continue
/// towards a word of the set, and a quote closes a whole word. What follows
/// the quote is outside the slot.
pub open spec fn token_fits(set: Set<Seq<u8>>, w: Seq<u8>, bytes: Seq<u8>) -> bool {
    let q = first_quote(bytes);
    if q < bytes.len() {
        set.contains(w + bytes.take(q as int))
    } else {
        reachable(set, w + bytes)
    }
}

/// Some entry of the vocabulary below `vocab_size` fits.
pub open spec fn any_fits(
    set: Set<Seq<u8>>,
    w: Seq<u8>,
    tokens: Seq<(u32, Vec<u8>)>,
    vocab_size: nat,
) -> bool {
    exists|k: int|
        0 <= k < tokens.len() && (#[trigger] tokens[k]).0 < vocab_size && token_fits(
            set,
            w,
            tokens[k].1@,
        )
}

/// Token `id` has an entry that fits.
pub open spec fn id_fits(
    set: Set<Seq<u8>>,
    w: Seq<u8>,
    tokens: Seq<(u32, Vec<u8>)>,
    id: int,
) -> bool {
    exists|k: int|
        0 <= k < tokens.len() && (#[trigger] tokens[k]).0 == id && token_fits(set, w, tokens[k].1@)
}

/// The bias of token `id` in a slot that holds `w`: 0 where it fits. A slot
/// that nothing fits is left unconstrained rather than blocking every token.
pub open spec fn bias(
    set: Set<Seq<u8>>,
    w: Seq<u8>,
    tokens: Seq<(u32, Vec<u8>)>,
    vocab_size: nat,
    id: int,
) -> i32 {
    if any_fits(set, w, tokens, vocab_size) && !id_fits(set, w, tokens, id) {
        BLOCKED
    } else {
        0
    }
}

/// Constrains a model's output to the declared tools.
pub struct ConstrainedDecoder {
    tool_name_trie: Trie,
    /// Argument keys per tool, by the bytes of its name.
    arg_key_tries: Vec<(Vec<u8>, Trie)>,
    /// The bytes each vocabulary token stands for.
    token_bytes: Vec<(u32, Vec<u8>)>,
    sm: JsonStateMachine,
}

fn find_quote(bytes: &[u8]) -> (q: usize)
    ensures
        q == first_quote(bytes@),
        q <= bytes@.len(),
{
    let mut i: usize = 0;
    assert(bytes@.skip(0) =~= bytes@);
    while i < bytes.len()
        invariant
            i <= bytes@.len(),
            first_quote(bytes@) == i + first_quote(bytes@.skip(i as int)),
        decreases bytes.len() - i,
    {
        assert(bytes@.skip(i as int)[0] == bytes@[i as int]);
        assert(bytes@.skip(i as int).skip(1) =~= bytes@.skip(i + 1));
        if bytes[i] == '"' as u8 {
            return i;
        }
        i = i + 1;
    }
    i
}

proof fn lemma_word_is_reachable(set: Set<Seq<u8>>, w: Seq<u8>)
    requires
        set.contains(w),
    ensures
        reachable(set, w),
{
    assert(w.take(w.len() as int) =~= w);
    assert(prefix_of(w, w));
}

proof fn lemma_shorter_is_reachable(set: Set<Seq<u8>>, w: Seq<u8>, more: Seq<u8>)
    requires
        reachable(set, w + more),
    ensures
        reachable(set, w),
{
    if w.len() > 0 {
        let word = choose|word: Seq<u8>| #[trigger] set.contains(word) && prefix_of(w + more, word);
        assert(word.take(w.len() as int) =~= w) by {
            assert forall|k: int| 0 <= k < w.len() implies word[k] == w[k] by {
                assert(word.take((w + more).len() as int)[k] == (w + more)[k]);
            }
        }
        assert(prefix_of(w, word));
    }
}

/// Whether a token fits a slot whose trie walk stands at `node`.
fn fits(trie: &Trie, node: usize, bytes: &[u8]) -> (yes: bool)
    requires
        trie.wf(),
        node < trie.size(),
    ensures
        yes == token_fits(trie@, trie.word(node as int), bytes@),
{
    let q: usize = find_quote(bytes);
    if q < bytes.len() {
        let head = vstd::slice::slice_subrange(bytes, 0, q);
        assert(head@ =~= bytes@.take(q as int));
        match trie.advance(node, head) {
            Some(n) => trie.is_terminal(n),
            None => {
                proof {
                    let w = trie.word(node as int) + head@;
                    if trie@.contains(w) {
                        lemma_word_is_reachable(trie@, w);
                    }
                }
                false
            },
        }
    } else {
        match trie.advance(node, bytes) {
            Some(_) => true,
            None => false,
        }
    }
}

fn same_bytes(a: &[u8], b: &[u8]) -> (same: bool)
    ensures
        same == (a@ == b@),
{
    if a.len() != b.len() {
        return false;
    }
    let mut i: usize = 0;
    while i < a.len()
        invariant
            i <= a@.len(),
            a@.len() == b@.len(),
            forall|j: int| 0 <= j < i ==> a@[j] == b@[j],
        decreases a.len() - i,
    {
        if a[i] != b[i] {
            return false;
        }
        i = i + 1;
    }
    assert(a@ =~= b@);
    true
}

/// The keys of the last entry for `function`.
spec fn entry_keys(list: Seq<(Vec<u8>, Trie)>, function: Seq<u8>) -> Option<Set<Seq<u8>>>
    decreases list.len(),
{
    if list.len() == 0 {
        None
    } else if list.last().0@ == function {
        Some(list.last().1@)
    } else {
        entry_keys(list.drop_last(), function)
    }
}

spec fn tries_wf(list: Seq<(Vec<u8>, Trie)>) -> bool {
    forall|i: int| 0 <= i < list.len() ==> (#[trigger] list[i]).1.wf() && list[i].1.size() >= 1
        && list[i].1.word(0) == Seq::<u8>::empty()
}

fn key_trie(keys: &Vec<String>) -> (trie: Trie)
    ensures
        trie.wf(),
        trie.size() >= 1,
        trie.word(0) == Seq::<u8>::empty(),
        trie@ == key_set(keys@),
{
    let mut trie = Trie::new();
    let mut i: usize = 0;
    while i < keys.len()
        invariant
            i <= keys@.len(),
            trie.wf(),
            trie.size() >= 1,
            trie.word(0) == Seq::<u8>::empty(),
            trie@ == key_set(keys@.take(i as int)),
        decreases keys.len() - i,
    {
        proof {
            assert(keys@.take(i + 1).drop_last() =~= keys@.take(i as int));
            assert(keys@.take(i + 1).last() == keys@[i as int]);
        }
        trie.insert(keys[i].as_str().as_bytes());
        i = i + 1;
    }
    assert(keys@.take(i as int) =~= keys@);
    trie
}

fn copy_bytes(b: &[u8]) -> (v: Vec<u8>)
    ensures
        v@ == b@,
{
    let mut v: Vec<u8> = Vec::new();
    let mut i: usize = 0;
    while i < b.len()
        invariant
            i <= b@.len(),
            v@ == b@.take(i as int),
        decreases b.len() - i,
    {
        v.push(b[i]);
        i = i + 1;
        assert(v@ =~= b@.take(i as int));
    }
    assert(b@.take(i as int) =~= b@);
    v
}

impl ConstrainedDecoder {
    /// The tool names that may be emitted.
    pub closed spec fn names(&self) -> Set<Seq<u8>> {
        self.tool_name_trie@
    }

    /// The argument keys that may be emitted for a tool.
    pub closed spec fn keys(&self, function: Seq<u8>) -> Option<Set<Seq<u8>>> {
        entry_keys(self.arg_key_tries@, function)
    }

    /// A node of the tool-name trie stands for `w`.
    pub closed spec fn is_name_node(&self, node: usize, w: Seq<u8>) -> bool {
        node < self.tool_name_trie.size() && self.tool_name_trie.word(node as int) == w
    }

    /// A node of the trie of a tool's argument keys stands for `w`.
    pub closed spec fn is_key_node(&self, function: Seq<u8>, node: usize, w: Seq<u8>) -> bool {
        exists|i: int|
            0 <= i < self.arg_key_tries@.len() && self.keys(function) == Some(
                (#[trigger] self.arg_key_tries@[i]).1@,
            ) && node < self.arg_key_tries@[i].1.size() && self.arg_key_tries@[i].1.word(
                node as int,
            ) == w
    }

    /// The vocabulary.
    pub closed spec fn tokens(&self) -> Seq<(u32, Vec<u8>)> {
        self.token_bytes@
    }

    /// Where the output stands.
    pub closed spec fn machine(&self) -> Machine {
        self.sm@
    }

    pub closed spec fn wf(&self) -> bool {
        &&& self.tool_name_trie.wf()
        &&& self.tool_name_trie.size() >= 1
        &&& self.tool_name_trie.word(0) == Seq::<u8>::empty()
        &&& tries_wf(self.arg_key_tries@)
        &&& self.sm.wf()
    }

    /// The words the open slot may hold; `None` where nothing is constrained.
    pub open spec fn slot(&self) -> Option<Set<Seq<u8>>> {
        match self.machine().state {
            JsonState::Free => None,
            JsonState::InName => Some(self.names()),
            JsonState::InArgKey => self.keys(self.machine().function),
        }
    }

    pub fn new(tool_defs: &[ToolDef], token_bytes: Vec<(u32, Vec<u8>)>) -> (dec: Self)
        ensures
            dec.wf(),
            dec.names() == tool_names(tool_defs@),
            forall|f: Seq<u8>| #[trigger] dec.keys(f) == keys_for(tool_defs@, f),
            dec.tokens() == token_bytes@,
            dec.machine() == fresh_machine(),
    {
        let mut tool_name_trie = Trie::new();
        let mut arg_key_tries: Vec<(Vec<u8>, Trie)> = Vec::new();
        let mut i: usize = 0;
        while i < tool_defs.len()
            invariant
                i <= tool_defs@.len(),
                tool_name_trie.wf(),
                tool_name_trie.size() >= 1,
                tool_name_trie.word(0) == Seq::<u8>::empty(),
                tool_name_trie@ == tool_names(tool_defs@.take(i as int)),
                tries_wf(arg_key_tries@),
                forall|f: Seq<u8>| #[trigger]
                    entry_keys(arg_key_tries@, f) == keys_for(tool_defs@.take(i as int), f),
            decreases tool_defs.len() - i,
        {
            let ghost before = arg_key_tries@;
            proof {
                assert(tool_defs@.take(i + 1).drop_last() =~= tool_defs@.take(i as int));
                assert(tool_defs@.take(i + 1).last() == tool_defs@[i as int]);
            }
            let name: &[u8] = tool_defs[i].snake_name.as_str().as_bytes();
            tool_name_trie.insert(name);
            let trie = key_trie(&tool_defs[i].param_keys);
            arg_key_tries.push((copy_bytes(name), trie));
            proof {
                assert forall|f: Seq<u8>| #[trigger] entry_keys(arg_key_tries@, f) == keys_for(
                    tool_defs@.take(i + 1),
                    f,
                ) by {
                    assert(arg_key_tries@.drop_last() =~= before);
                    assert(entry_keys(before, f) == keys_for(tool_defs@.take(i as int), f));
                }
                assert forall|k: int| 0 <= k < arg_key_tries@.len() implies (
                #[trigger] arg_key_tries@[k]).1.wf() && arg_key_tries@[k].1.size() >= 1
                    && arg_key_tries@[k].1.word(0) == Seq::<u8>::empty() by {
                    if k < before.len() {
                        assert(arg_key_tries@[k] == before[k]);
                    }
                }
            }
            i = i + 1;
        }
        assert(tool_defs@.take(i as int) =~= tool_defs@);
        ConstrainedDecoder { tool_name_trie, arg_key_tries, token_bytes, sm: JsonStateMachine::new() }
    }

    /// Which key trie serves a tool.
    fn key_entry(&self, function: &[u8]) -> (at: Option<usize>)
        requires
            self.wf(),
        ensures
            match at {
                Some(i) => i < self.arg_key_tries@.len() && self.keys(function@) == Some(
                    self.arg_key_tries@[i as int].1@,
                ),
                None => self.keys(function@) is None,
            },
    {
        let mut n: usize = self.arg_key_tries.len();
        assert(self.arg_key_tries@.take(n as int) =~= self.arg_key_tries@);
        while n > 0
            invariant
                n <= self.arg_key_tries@.len(),
                entry_keys(self.arg_key_tries@.take(n as int), function@) == entry_keys(
                    self.arg_key_tries@,
                    function@,
                ),
            decreases n,
        {
            proof {
                let t = self.arg_key_tries@.take(n as int);
                assert(t.last() == self.arg_key_tries@[n - 1]);
                assert(t.drop_last() =~= self.arg_key_tries@.take(n - 1));
            }
            if same_bytes(&self.arg_key_tries[n - 1].0, function) {
                return Some(n - 1);
            }
            n = n - 1;
        }
        None
    }

    /// Where the constraint stands. A slot whose content has left its trie is
    /// no longer constrained.
    pub fn constraint(&self) -> (state: ConstraintState)
        requires
            self.wf(),
        ensures
            match state {
                ConstraintState::Free => self.slot() is None || !reachable(
                    self.slot()->0,
                    self.machine().buf,
                ),
                ConstraintState::ToolName { trie_node } => {
                    &&& self.machine().state == JsonState::InName
                    &&& reachable(self.names(), self.machine().buf)
                    &&& self.is_name_node(trie_node, self.machine().buf)
                },
                ConstraintState::ArgKey { trie_node } => {
                    &&& self.machine().state == JsonState::InArgKey
                    &&& self.slot() is Some
                    &&& reachable(self.slot()->0, self.machine().buf)
                    &&& self.is_key_node(
                        self.machine().function,
                        trie_node,
                        self.machine().buf,
                    )
                },
            },
    {
        match self.sm.state {
            JsonState::Free => ConstraintState::Free,
            JsonState::InName => {
                assert(Seq::<u8>::empty() + self.sm.constrained_buf@ =~= self.sm.constrained_buf@);
                match self.tool_name_trie.advance(0, &self.sm.constrained_buf) {
                    Some(n) => ConstraintState::ToolName { trie_node: n },
                    None => ConstraintState::Free,
                }
            },
            JsonState::InArgKey => match self.key_entry(&self.sm.function) {
                Some(i) => {
                    assert(self.arg_key_tries@[i as int].1.wf());
                    assert(Seq::<u8>::empty() + self.sm.constrained_buf@
                        =~= self.sm.constrained_buf@);
                    match self.arg_key_tries[i].1.advance(0, &self.sm.constrained_buf) {
                        Some(n) => ConstraintState::ArgKey { trie_node: n },
                        None => ConstraintState::Free,
                    }
                },
                None => ConstraintState::Free,
            },
        }
    }

    /// The additive bias for every token: 0 where it may be chosen,
    /// [`BLOCKED`] where it may not.
    pub fn logit_mask(&self, vocab_size: usize) -> (mask: Vec<i32>)
        requires
            self.wf(),
        ensures
            mask@.len() == vocab_size,
            forall|id: int|
                0 <= id < vocab_size ==> #[trigger] mask@[id] == match self.slot() {
                    Some(set) => bias(
                        set,
                        self.machine().buf,
                        self.tokens(),
                        vocab_size as nat,
                        id,
                    ),
                    None => 0,
                },
            vocab_size > 0 ==> exists|id: int| 0 <= id < vocab_size && #[trigger] mask@[id] == 0,
    {
        match self.sm.state {
            JsonState::Free => zeros(vocab_size),
            JsonState::InName => self.build_mask(&self.tool_name_trie, vocab_size),
            JsonState::InArgKey => match self.key_entry(&self.sm.function) {
                Some(i) => {
                    assert(self.arg_key_tries@[i as int].1.wf());
                    self.build_mask(&self.arg_key_tries[i].1, vocab_size)
                },
                None => zeros(vocab_size),
            },
        }
    }

    fn build_mask(&self, trie: &Trie, vocab_size: usize) -> (mask: Vec<i32>)
        requires
            trie.wf(),
            trie.size() >= 1,
            trie.word(0) == Seq::<u8>::empty(),
        ensures
            mask@.len() == vocab_size,
            forall|id: int|
                0 <= id < vocab_size ==> #[trigger] mask@[id] == bias(
                    trie@,
                    self.sm.constrained_buf@,
                    self.token_bytes@,
                    vocab_size as nat,
                    id,
                ),
            vocab_size > 0 ==> exists|id: int| 0 <= id < vocab_size && #[trigger] mask@[id] == 0,
    {
        let ghost set = trie@;
        let ghost w = self.sm.constrained_buf@;
        let ghost tokens = self.token_bytes@;
        assert(Seq::<u8>::empty() + w =~= w);
        let node: usize = match trie.advance(0, &self.sm.constrained_buf) {
            Some(n) => n,
            None => {
                proof {
                    if any_fits(set, w, tokens, vocab_size as nat) {
                        let k = choose|k: int|
                            0 <= k < tokens.len() && (#[trigger] tokens[k]).0 < vocab_size
                                && token_fits(set, w, tokens[k].1@);
                        lemma_fit_is_reachable(set, w, tokens[k].1@);
                    }
                }
                return zeros(vocab_size);
            },
        };
        let mut mask: Vec<i32> = Vec::new();
        crate::v3::rows::extend(&mut mask, vocab_size, BLOCKED);
        let mut any: bool = false;
        let mut k: usize = 0;
        while k < self.token_bytes.len()
            invariant
                trie.wf(),
                node < trie.size(),
                trie.word(node as int) == w,
                set == trie@,
                tokens == self.token_bytes@,
                k <= tokens.len(),
                mask@.len() == vocab_size,
                any <==> exists|j: int|
                    0 <= j < k && (#[trigger] tokens[j]).0 < vocab_size && token_fits(
                        set,
                        w,
                        tokens[j].1@,
                    ),
                forall|id: int|
                    0 <= id < vocab_size ==> #[trigger] mask@[id] == if (exists|j: int|
                        0 <= j < k && (#[trigger] tokens[j]).0 == id && token_fits(
                            set,
                            w,
                            tokens[j].1@,
                        )) {
                        0i32
                    } else {
                        BLOCKED
                    },
                any ==> exists|id: int| 0 <= id < vocab_size && #[trigger] mask@[id] == 0,
            decreases self.token_bytes.len() - k,
        {
            let id: usize = self.token_bytes[k].0 as usize;
            let ghost before = mask@;
            if id < vocab_size && fits(trie, node, &self.token_bytes[k].1) {
                mask[id] = 0;
                any = true;
                assert(mask@[id as int] == 0);
                assert(tokens[k as int].0 == id);
            }
            proof {
                assert forall|i: int| 0 <= i < vocab_size implies #[trigger] mask@[i] == if (exists|
                    j: int,
                |
                    0 <= j < k + 1 && (#[trigger] tokens[j]).0 == i && token_fits(
                        set,
                        w,
                        tokens[j].1@,
                    )) {
                    0i32
                } else {
                    BLOCKED
                } by {
                    assert(before[i] == if (exists|j: int|
                        0 <= j < k && (#[trigger] tokens[j]).0 == i && token_fits(
                            set,
                            w,
                            tokens[j].1@,
                        )) {
                        0i32
                    } else {
                        BLOCKED
                    });
                    if tokens[k as int].0 == i && token_fits(set, w, tokens[k as int].1@) {
                    } else {
                        if exists|j: int|
                            0 <= j < k + 1 && (#[trigger] tokens[j]).0 == i && token_fits(
                                set,
                                w,
                                tokens[j].1@,
                            ) {
                            let j = choose|j: int|
                                0 <= j < k + 1 && (#[trigger] tokens[j]).0 == i && token_fits(
                                    set,
                                    w,
                                    tokens[j].1@,
                                );
                            assert(j < k);
                        }
                    }
                }
            }
            k = k + 1;
        }
        if !any {
            return zeros(vocab_size);
        }
        mask
    }

    /// Follow a run of output.
    pub fn feed_bytes(&mut self, bytes: &[u8])
        requires
            old(self).wf(),
        ensures
            final(self).wf(),
            final(self).machine() == run(old(self).machine(), bytes@),
            final(self).names() == old(self).names(),
            forall|f: Seq<u8>| #[trigger] final(self).keys(f) == old(self).keys(f),
            final(self).tokens() == old(self).tokens(),
    {
        self.sm.feed(bytes);
    }

    /// Follow a token that was chosen. A token the vocabulary does not hold
    /// changes nothing.
    pub fn update(&mut self, token_id: u32)
        requires
            old(self).wf(),
        ensures
            final(self).wf(),
            final(self).machine() == run(
                old(self).machine(),
                bytes_of_token(old(self).tokens(), token_id),
            ),
            final(self).names() == old(self).names(),
            forall|f: Seq<u8>| #[trigger] final(self).keys(f) == old(self).keys(f),
            final(self).tokens() == old(self).tokens(),
    {
        let mut i: usize = 0;
        assert(self.token_bytes@.skip(0) =~= self.token_bytes@);
        while i < self.token_bytes.len()
            invariant
                *self == *old(self),
                self.wf(),
                i <= self.token_bytes@.len(),
                bytes_of_token(self.token_bytes@.skip(i as int), token_id) == bytes_of_token(
                    self.token_bytes@,
                    token_id,
                ),
            decreases self.token_bytes.len() - i,
        {
            assert(self.token_bytes@.skip(i as int)[0] == self.token_bytes@[i as int]);
            assert(self.token_bytes@.skip(i as int).skip(1) =~= self.token_bytes@.skip(i + 1));
            if self.token_bytes[i].0 == token_id {
                let bytes = copy_bytes(&self.token_bytes[i].1);
                self.sm.feed(&bytes);
                return;
            }
            i = i + 1;
        }
    }
}

/// The bytes of the first entry for a token; none where there is no entry.
pub open spec fn bytes_of_token(tokens: Seq<(u32, Vec<u8>)>, id: u32) -> Seq<u8>
    decreases tokens.len(),
{
    if tokens.len() == 0 {
        Seq::empty()
    } else if tokens[0].0 == id {
        tokens[0].1@
    } else {
        bytes_of_token(tokens.skip(1), id)
    }
}

fn zeros(n: usize) -> (v: Vec<i32>)
    ensures
        v@.len() == n,
        forall|i: int| 0 <= i < n ==> #[trigger] v@[i] == 0,
        n > 0 ==> exists|i: int| 0 <= i < n && #[trigger] v@[i] == 0,
{
    let mut v: Vec<i32> = Vec::new();
    crate::v3::rows::extend(&mut v, n, 0i32);
    assert(n > 0 ==> v@[0] == 0);
    v
}

proof fn lemma_fit_is_reachable(set: Set<Seq<u8>>, w: Seq<u8>, bytes: Seq<u8>)
    requires
        token_fits(set, w, bytes),
    ensures
        reachable(set, w),
{
    let q = first_quote(bytes);
    if q < bytes.len() {
        lemma_word_is_reachable(set, w + bytes.take(q as int));
        lemma_shorter_is_reachable(set, w, bytes.take(q as int));
    } else {
        lemma_shorter_is_reachable(set, w, bytes);
    }
}

proof fn lemma_first_quote(bytes: Seq<u8>)
    ensures
        first_quote(bytes) <= bytes.len(),
        first_quote(bytes) < bytes.len() ==> bytes[first_quote(bytes) as int] == '"' as u8,
        forall|i: int| 0 <= i < first_quote(bytes) ==> bytes[i] != '"' as u8,
    decreases bytes.len(),
{
    if bytes.len() > 0 && bytes[0] != '"' as u8 {
        let rest = bytes.skip(1);
        lemma_first_quote(rest);
        assert forall|i: int| 0 <= i < first_quote(bytes) implies bytes[i] != '"' as u8 by {
            if i > 0 {
                assert(rest[i - 1] == bytes[i]);
            }
        }
        if first_quote(bytes) < bytes.len() {
            assert(rest[first_quote(rest) as int] == bytes[first_quote(bytes) as int]);
        }
    }
}

/// Bytes without a quote stay in an open slot.
proof fn lemma_stays_in_slot(m: Machine, bytes: Seq<u8>)
    requires
        m.state != JsonState::Free,
        forall|i: int| 0 <= i < bytes.len() ==> bytes[i] != '"' as u8,
    ensures
        run(m, bytes).state == m.state,
        run(m, bytes).buf == m.buf + bytes,
        run(m, bytes).function == m.function,
    decreases bytes.len(),
{
    if bytes.len() > 0 {
        lemma_stays_in_slot(m, bytes.drop_last());
        assert((m.buf + bytes.drop_last()).push(bytes.last()) =~= m.buf + bytes);
    } else {
        assert(m.buf + bytes =~= m.buf);
    }
}

/// The output cannot name a tool that does not exist: a token the mask lets
/// into the name slot either leaves the slot on the way to a declared name, or
/// closes it on one.
pub proof fn only_declared_tools_are_named(names: Set<Seq<u8>>, m: Machine, bytes: Seq<u8>)
    requires
        m.state == JsonState::InName,
        token_fits(names, m.buf, bytes),
    ensures
        ({
            let q = first_quote(bytes);
            if q < bytes.len() {
                let closed = run(m, bytes.take(q as int + 1));
                closed.state == JsonState::Free && names.contains(closed.function)
            } else {
                let open = run(m, bytes);
                open.state == JsonState::InName && reachable(names, open.buf)
            }
        }),
{
    let q = first_quote(bytes);
    lemma_first_quote(bytes);
    if q < bytes.len() {
        let head = bytes.take(q as int);
        lemma_stays_in_slot(m, head);
        assert(bytes.take(q as int + 1).drop_last() =~= head);
        assert(bytes.take(q as int + 1).last() == '"' as u8);
    } else {
        lemma_stays_in_slot(m, bytes);
    }
}

/// Nor can it use an argument key that the named tool does not have.
pub proof fn only_declared_keys_are_used(keys: Set<Seq<u8>>, m: Machine, bytes: Seq<u8>)
    requires
        m.state == JsonState::InArgKey,
        token_fits(keys, m.buf, bytes),
    ensures
        ({
            let q = first_quote(bytes);
            if q < bytes.len() {
                let open = run(m, bytes.take(q as int));
                let closed = run(m, bytes.take(q as int + 1));
                &&& open.state == JsonState::InArgKey
                &&& keys.contains(open.buf)
                &&& closed.state == JsonState::Free
                &&& closed.function == m.function
            } else {
                let open = run(m, bytes);
                open.state == JsonState::InArgKey && reachable(keys, open.buf)
            }
        }),
{
    let q = first_quote(bytes);
    lemma_first_quote(bytes);
    if q < bytes.len() {
        let head = bytes.take(q as int);
        lemma_stays_in_slot(m, head);
        assert(bytes.take(q as int + 1).drop_last() =~= head);
        assert(bytes.take(q as int + 1).last() == '"' as u8);
    } else {
        lemma_stays_in_slot(m, bytes);
    }
}

/// A slot opens empty, and an empty slot can become every declared word.
pub proof fn a_slot_opens_empty(m: Machine, b: u8, set: Set<Seq<u8>>)
    requires
        m.state == JsonState::Free,
        step(m, b).state != JsonState::Free,
    ensures
        step(m, b).buf == Seq::<u8>::empty(),
        reachable(set, step(m, b).buf),
{
}

/// A token keeps to its constraint: what it writes into a slot fits there,
/// whether the slot was open or the token opens it itself.
pub open spec fn keeps_to(
    names: Set<Seq<u8>>,
    keys: spec_fn(Seq<u8>) -> Option<Set<Seq<u8>>>,
    m: Machine,
    bytes: Seq<u8>,
) -> bool
    decreases bytes.len(), 1int,
{
    if bytes.len() == 0 {
        true
    } else {
        match m.state {
            JsonState::Free => keeps_to(names, keys, step(m, bytes[0]), bytes.skip(1)),
            JsonState::InName => {
                &&& token_fits(names, m.buf, bytes)
                &&& keeps_to_after_slot(names, keys, m, bytes)
            },
            JsonState::InArgKey => {
                &&& keys(m.function) is Some ==> token_fits(keys(m.function)->0, m.buf, bytes)
                &&& keeps_to_after_slot(names, keys, m, bytes)
            },
        }
    }
}

/// What follows the quote that closes the open slot, if the bytes hold one,
/// keeps to its constraint.
pub open spec fn keeps_to_after_slot(
    names: Set<Seq<u8>>,
    keys: spec_fn(Seq<u8>) -> Option<Set<Seq<u8>>>,
    m: Machine,
    bytes: Seq<u8>,
) -> bool
    decreases bytes.len(), 0int,
{
    let q = first_quote(bytes) as int;
    0 <= q < bytes.len() ==> keeps_to(names, keys, run(m, bytes.take(q + 1)), bytes.skip(q + 1))
}

/// The output of a run of tokens.
pub open spec fn output(tokens: Seq<Seq<u8>>) -> Seq<u8>
    decreases tokens.len(),
{
    if tokens.len() == 0 {
        Seq::empty()
    } else {
        output(tokens.drop_last()) + tokens.last()
    }
}

/// Every token of a run keeps to its constraint.
pub open spec fn all_keep_to(
    names: Set<Seq<u8>>,
    keys: spec_fn(Seq<u8>) -> Option<Set<Seq<u8>>>,
    tokens: Seq<Seq<u8>>,
) -> bool
    decreases tokens.len(),
{
    tokens.len() == 0 || (all_keep_to(names, keys, tokens.drop_last()) && keeps_to(
        names,
        keys,
        run(fresh_machine(), output(tokens.drop_last())),
        tokens.last(),
    ))
}

/// The captured name, if any, is declared, and an open slot is on its way to a
/// declared word.
pub open spec fn on_declared_words(
    names: Set<Seq<u8>>,
    keys: spec_fn(Seq<u8>) -> Option<Set<Seq<u8>>>,
    m: Machine,
) -> bool {
    &&& m.function.len() == 0 || names.contains(m.function)
    &&& m.state == JsonState::InName ==> reachable(names, m.buf)
    &&& m.state == JsonState::InArgKey && keys(m.function) is Some ==> reachable(
        keys(m.function)->0,
        m.buf,
    )
}

proof fn lemma_token_keeps(
    names: Set<Seq<u8>>,
    keys: spec_fn(Seq<u8>) -> Option<Set<Seq<u8>>>,
    m: Machine,
    bytes: Seq<u8>,
)
    requires
        on_declared_words(names, keys, m),
        keeps_to(names, keys, m, bytes),
    ensures
        on_declared_words(names, keys, run(m, bytes)),
    decreases bytes.len(),
{
    let q = first_quote(bytes) as int;
    lemma_first_quote(bytes);
    if bytes.len() == 0 {
    } else if m.state == JsonState::Free {
        let next = step(m, bytes[0]);
        let first = seq![bytes[0]];
        assert(first.drop_last() =~= Seq::<u8>::empty());
        assert(run(m, Seq::<u8>::empty()) == m);
        assert(run(m, first) == next);
        if next.state != JsonState::Free {
            a_slot_opens_empty(m, bytes[0], names);
        }
        lemma_token_keeps(names, keys, next, bytes.skip(1));
        feeding_composes(m, first, bytes.skip(1));
        assert(first + bytes.skip(1) =~= bytes);
    } else if q < bytes.len() {
        let head = bytes.take(q);
        let part = bytes.take(q + 1);
        let closed = run(m, part);
        lemma_stays_in_slot(m, head);
        assert(part.drop_last() =~= head);
        assert(part.last() == '"' as u8);
        if m.state == JsonState::InName {
            only_declared_tools_are_named(names, m, bytes);
        }
        assert(on_declared_words(names, keys, closed));
        assert(keeps_to_after_slot(names, keys, m, bytes));
        lemma_token_keeps(names, keys, closed, bytes.skip(q + 1));
        feeding_composes(m, part, bytes.skip(q + 1));
        assert(part + bytes.skip(q + 1) =~= bytes);
    } else {
        lemma_stays_in_slot(m, bytes);
        if m.state == JsonState::InName {
            only_declared_tools_are_named(names, m, bytes);
        } else if keys(m.function) is Some {
            only_declared_keys_are_used(keys(m.function)->0, m, bytes);
        }
    }
}

/// The whole output cannot name a tool that does not exist: however many
/// tokens were chosen under the mask, the name captured last is a declared
/// one, and a slot that is still open can still become a declared word.
///
/// Outside a slot every token is allowed. So one that opens a slot and writes
/// into it at once has to fit by itself what it opens.
pub proof fn a_constrained_run_names_declared_tools(
    names: Set<Seq<u8>>,
    keys: spec_fn(Seq<u8>) -> Option<Set<Seq<u8>>>,
    tokens: Seq<Seq<u8>>,
)
    requires
        all_keep_to(names, keys, tokens),
    ensures
        on_declared_words(names, keys, run(fresh_machine(), output(tokens))),
    decreases tokens.len(),
{
    if tokens.len() > 0 {
        let before = tokens.drop_last();
        a_constrained_run_names_declared_tools(names, keys, before);
        let m = run(fresh_machine(), output(before));
        lemma_token_keeps(names, keys, m, tokens.last());
        feeding_composes(fresh_machine(), output(before), tokens.last());
    }
}

/// A token whose bias is zero fits the open slot, unless nothing does.
pub proof fn an_allowed_token_fits(
    set: Set<Seq<u8>>,
    w: Seq<u8>,
    tokens: Seq<(u32, Vec<u8>)>,
    vocab_size: nat,
    id: int,
)
    requires
        bias(set, w, tokens, vocab_size, id) == 0,
        any_fits(set, w, tokens, vocab_size),
    ensures
        id_fits(set, w, tokens, id),
{
}

/// A run of output that opens no slot before its last byte.
pub open spec fn stays_free(m: Machine, bytes: Seq<u8>) -> bool {
    forall|i: int|
        0 <= i < bytes.len() ==> run(m, #[trigger] bytes.take(i)).state == JsonState::Free
}

/// Output that writes into no slot keeps to every constraint.
pub proof fn output_outside_slots_keeps_to_anything(
    names: Set<Seq<u8>>,
    keys: spec_fn(Seq<u8>) -> Option<Set<Seq<u8>>>,
    m: Machine,
    bytes: Seq<u8>,
)
    requires
        stays_free(m, bytes),
    ensures
        keeps_to(names, keys, m, bytes),
    decreases bytes.len(),
{
    if bytes.len() > 0 {
        let next = step(m, bytes[0]);
        let first = seq![bytes[0]];
        let rest = bytes.skip(1);
        assert(bytes.take(0) =~= Seq::<u8>::empty());
        assert(run(m, bytes.take(0)) == m);
        assert(first.drop_last() =~= Seq::<u8>::empty());
        assert(run(m, first) == next);
        assert forall|i: int| 0 <= i < rest.len() implies run(next, #[trigger] rest.take(i)).state
            == JsonState::Free by {
            feeding_composes(m, first, rest.take(i));
            assert(first + rest.take(i) =~= bytes.take(i + 1));
        }
        output_outside_slots_keeps_to_anything(names, keys, next, rest);
    }
}

/// No token is listed twice.
pub open spec fn listed_once(tokens: Seq<(u32, Vec<u8>)>) -> bool {
    forall|i: int, j: int|
        0 <= i < j < tokens.len() ==> (#[trigger] tokens[i]).0 != (#[trigger] tokens[j]).0
}

proof fn lemma_bytes_of_entry(tokens: Seq<(u32, Vec<u8>)>, k: int)
    requires
        listed_once(tokens),
        0 <= k < tokens.len(),
    ensures
        bytes_of_token(tokens, tokens[k].0) == tokens[k].1@,
    decreases tokens.len(),
{
    if k > 0 {
        let rest = tokens.skip(1);
        assert(tokens[0].0 != tokens[k].0);
        assert(rest[k - 1] == tokens[k]);
        assert forall|i: int, j: int| 0 <= i < j < rest.len() implies (#[trigger] rest[i]).0 != (
        #[trigger] rest[j]).0 by {
            assert(tokens[i + 1].0 != tokens[j + 1].0);
        }
        lemma_bytes_of_entry(rest, k - 1);
    }
}

/// A token writes the bytes that the vocabulary lists it with.
pub proof fn a_token_writes_its_entry(tokens: Seq<(u32, Vec<u8>)>, k: int)
    requires
        listed_once(tokens),
        0 <= k < tokens.len(),
    ensures
        bytes_of_token(tokens, tokens[k].0) == tokens[k].1@,
{
    lemma_bytes_of_entry(tokens, k);
}

/// Whatever the mask leaves open keeps to the constraint: a token whose bias
/// is zero while some token fits, and that fits any slot it opens itself, is
/// one of those that [`a_constrained_run_names_declared_tools`] is about.
pub proof fn what_the_mask_allows_keeps_to_the_constraint(
    names: Set<Seq<u8>>,
    keys: spec_fn(Seq<u8>) -> Option<Set<Seq<u8>>>,
    m: Machine,
    tokens: Seq<(u32, Vec<u8>)>,
    vocab_size: nat,
    id: u32,
)
    requires
        listed_once(tokens),
        match m.state {
            JsonState::Free => keeps_to(names, keys, m, bytes_of_token(tokens, id)),
            JsonState::InName => {
                &&& any_fits(names, m.buf, tokens, vocab_size)
                &&& bias(names, m.buf, tokens, vocab_size, id as int) == 0
                &&& keeps_to_after_slot(names, keys, m, bytes_of_token(tokens, id))
            },
            JsonState::InArgKey => {
                &&& keys(m.function) matches Some(set) ==> any_fits(
                    set,
                    m.buf,
                    tokens,
                    vocab_size,
                ) && bias(set, m.buf, tokens, vocab_size, id as int) == 0
                &&& keeps_to_after_slot(names, keys, m, bytes_of_token(tokens, id))
            },
        },
    ensures
        keeps_to(names, keys, m, bytes_of_token(tokens, id)),
{
    let set = if m.state == JsonState::InName {
        Some(names)
    } else {
        keys(m.function)
    };
    if m.state != JsonState::Free && set is Some {
        an_allowed_token_fits(set->0, m.buf, tokens, vocab_size, id as int);
        let k = choose|k: int|
            0 <= k < tokens.len() && (#[trigger] tokens[k]).0 == id as int && token_fits(
                set->0,
                m.buf,
                tokens[k].1@,
            );
        lemma_bytes_of_entry(tokens, k);
    }
}

/// The vocabulary writes every byte by itself.
pub open spec fn writes_every_byte(tokens: Seq<(u32, Vec<u8>)>, vocab_size: nat) -> bool {
    forall|b: u8| #[trigger] writes_byte(tokens, vocab_size, b)
}

pub open spec fn writes_byte(tokens: Seq<(u32, Vec<u8>)>, vocab_size: nat, b: u8) -> bool {
    exists|k: int|
        0 <= k < tokens.len() && (#[trigger] tokens[k]).0 < vocab_size && tokens[k].1@ == seq![b]
}

/// A vocabulary that writes every byte never gets stuck: a slot on its way to
/// a declared word has a token that fits, so its mask always constrains.
pub proof fn a_byte_vocabulary_never_gets_stuck(
    set: Set<Seq<u8>>,
    w: Seq<u8>,
    word: Seq<u8>,
    tokens: Seq<(u32, Vec<u8>)>,
    vocab_size: nat,
)
    requires
        set.contains(word),
        prefix_of(w, word),
        !word.contains('"' as u8),
        writes_every_byte(tokens, vocab_size),
    ensures
        any_fits(set, w, tokens, vocab_size),
{
    let b = if w.len() == word.len() {
        '"' as u8
    } else {
        word[w.len() as int]
    };
    assert(writes_byte(tokens, vocab_size, b));
    let k = choose|k: int|
        0 <= k < tokens.len() && (#[trigger] tokens[k]).0 < vocab_size && tokens[k].1@ == seq![b];
    let bytes = tokens[k].1@;
    lemma_first_quote(bytes);
    if w.len() == word.len() {
        assert(w =~= word);
        assert(w + bytes.take(0) =~= word);
    } else {
        assert(word.contains(b));
        assert(first_quote(bytes) == 1) by {
            if first_quote(bytes) < 1 {
                assert(bytes[0] == b);
            }
        }
        assert(w + bytes =~= word.take(w.len() as int + 1));
        assert(prefix_of(w + bytes, word));
    }
    assert(token_fits(set, w, bytes));
}

/// A token goes on with a word: it has no quote and some word of the set starts
/// with what is written and the token behind it, or the bytes before its first
/// quote make what is written a word of the set.
pub open spec fn goes_on(set: Set<Seq<u8>>, written: Seq<u8>, token: Seq<u8>) -> bool {
    ||| (forall|i: int| 0 <= i < token.len() ==> #[trigger] token[i] != 34) && (written.len()
        + token.len() == 0 || exists|word: Seq<u8>| #[trigger]
        set.contains(word) && written.len() + token.len() <= word.len() && word.subrange(
            0,
            (written.len() + token.len()) as int,
        ) == written + token)
    ||| exists|q: int|
        0 <= q < token.len() && #[trigger] token[q] == 34 && (forall|i: int|
            0 <= i < q ==> #[trigger] token[i] != 34) && set.contains(
            written + token.subrange(0, q),
        )
}

/// The mask leaves a token open exactly where it goes on with a declared word,
/// or where no token at all does; every other one is blocked.
pub proof fn the_mask_is_open_for_what_goes_on(
    set: Set<Seq<u8>>,
    written: Seq<u8>,
    tokens: Seq<(u32, Vec<u8>)>,
    vocab_size: nat,
    k: int,
)
    requires
        listed_once(tokens),
        0 <= k < tokens.len(),
    ensures
        bias(set, written, tokens, vocab_size, tokens[k].0 as int) == if goes_on(
            set,
            written,
            tokens[k].1@,
        ) || !(exists|j: int|
            0 <= j < tokens.len() && (#[trigger] tokens[j]).0 < vocab_size && goes_on(
                set,
                written,
                tokens[j].1@,
            )) {
            0i32
        } else {
            -1000000000i32
        },
{
    assert forall|j: int| 0 <= j < tokens.len() implies token_fits(
        set,
        written,
        (#[trigger] tokens[j]).1@,
    ) == goes_on(set, written, tokens[j].1@) by {
        fitting_is_going_on(set, written, tokens[j].1@);
    }
    let id = tokens[k].0 as int;
    if id_fits(set, written, tokens, id) {
        let j = choose|j: int|
            0 <= j < tokens.len() && (#[trigger] tokens[j]).0 == id && token_fits(
                set,
                written,
                tokens[j].1@,
            );
        if j != k {
            if j < k {
                assert(tokens[j].0 != tokens[k].0);
            } else {
                assert(tokens[k].0 != tokens[j].0);
            }
        }
    }
}

/// A token fits a slot exactly where it goes on with a word.
pub proof fn fitting_is_going_on(set: Set<Seq<u8>>, written: Seq<u8>, token: Seq<u8>)
    ensures
        token_fits(set, written, token) <==> goes_on(set, written, token),
{
    let q = first_quote(token) as int;
    lemma_first_quote(token);
    if q < token.len() {
        assert(token.subrange(0, q) =~= token.take(q));
        assert(token[q] == 34);
        if goes_on(set, written, token) {
            let p = choose|p: int|
                0 <= p < token.len() && #[trigger] token[p] == 34 && (forall|i: int|
                    0 <= i < p ==> #[trigger] token[i] != 34) && set.contains(
                    written + token.subrange(0, p),
                );
            assert(p == q);
        }
    } else {
        assert forall|i: int| 0 <= i < token.len() implies #[trigger] token[i] != 34 by {}
        let both = written + token;
        if reachable(set, both) && both.len() > 0 {
            let word = choose|word: Seq<u8>| #[trigger]
                set.contains(word) && prefix_of(both, word);
            assert(word.subrange(0, both.len() as int) =~= word.take(both.len() as int));
        }
        if goes_on(set, written, token) && both.len() > 0 {
            let word = choose|word: Seq<u8>| #[trigger]
                set.contains(word) && written.len() + token.len() <= word.len() && word.subrange(
                    0,
                    (written.len() + token.len()) as int,
                ) == written + token;
            assert(word.subrange(0, both.len() as int) =~= word.take(both.len() as int));
            assert(prefix_of(both, word));
        }
    }
}

/// The words of the name slot are the snake-case names of the tools.
pub proof fn declared_names_are_those_of_the_tools(tools: Seq<ToolDef>, word: Seq<u8>)
    ensures
        tool_names(tools).contains(word) <==> exists|i: int|
            0 <= i < tools.len() && word == vstd::utf8::encode_utf8(
                (#[trigger] tools[i]).snake_name@,
            ),
    decreases tools.len(),
{
    if tools.len() > 0 {
        let before = tools.drop_last();
        declared_names_are_those_of_the_tools(before, word);
        let n = tools.len() - 1;
        assert(tools[n] == tools.last());
        if tool_names(before).contains(word) {
            let i = choose|i: int|
                0 <= i < before.len() && word == vstd::utf8::encode_utf8(
                    (#[trigger] before[i]).snake_name@,
                );
            assert(tools[i] == before[i]);
        }
        if exists|i: int|
            0 <= i < tools.len() && word == vstd::utf8::encode_utf8(
                (#[trigger] tools[i]).snake_name@,
            ) {
            let i = choose|i: int|
                0 <= i < tools.len() && word == vstd::utf8::encode_utf8(
                    (#[trigger] tools[i]).snake_name@,
                );
            if i < n {
                assert(before[i] == tools[i]);
            }
        }
    }
}

/// The words of the key slot are the parameter keys of the last tool of the
/// name that the call gives; a call that names no tool has no such slot.
pub proof fn declared_keys_are_those_of_the_tool(
    tools: Seq<ToolDef>,
    function: Seq<u8>,
    key: Seq<u8>,
)
    ensures
        match keys_for(tools, function) {
            Some(set) => exists|i: int|
                {
                    &&& 0 <= i < tools.len()
                    &&& vstd::utf8::encode_utf8((#[trigger] tools[i]).snake_name@) == function
                    &&& forall|j: int|
                        i < j < tools.len() ==> vstd::utf8::encode_utf8(
                            (#[trigger] tools[j]).snake_name@,
                        ) != function
                    &&& set.contains(key) <==> exists|k: int|
                        0 <= k < tools[i].param_keys@.len() && key == vstd::utf8::encode_utf8(
                            (#[trigger] tools[i].param_keys@[k])@,
                        )
                },
            None => forall|j: int|
                0 <= j < tools.len() ==> vstd::utf8::encode_utf8((#[trigger] tools[j]).snake_name@)
                    != function,
        },
    decreases tools.len(),
{
    if tools.len() > 0 {
        let n = tools.len() - 1;
        let before = tools.drop_last();
        assert(tools[n] == tools.last());
        if bytes_of(tools[n].snake_name@) == function {
            lemma_key_set(tools[n].param_keys@, key);
        } else {
            declared_keys_are_those_of_the_tool(before, function, key);
            match keys_for(before, function) {
                Some(set) => {
                    let i = choose|i: int|
                        {
                            &&& 0 <= i < before.len()
                            &&& vstd::utf8::encode_utf8((#[trigger] before[i]).snake_name@)
                                == function
                            &&& forall|j: int|
                                i < j < before.len() ==> vstd::utf8::encode_utf8(
                                    (#[trigger] before[j]).snake_name@,
                                ) != function
                            &&& set.contains(key) <==> exists|k: int|
                                0 <= k < before[i].param_keys@.len() && key
                                    == vstd::utf8::encode_utf8(
                                    (#[trigger] before[i].param_keys@[k])@,
                                )
                        };
                    assert(tools[i] == before[i]);
                    assert forall|j: int| i < j < tools.len() implies vstd::utf8::encode_utf8(
                        (#[trigger] tools[j]).snake_name@,
                    ) != function by {
                        if j < n {
                            assert(before[j] == tools[j]);
                        }
                    }
                },
                None => {
                    assert forall|j: int| 0 <= j < tools.len() implies vstd::utf8::encode_utf8(
                        (#[trigger] tools[j]).snake_name@,
                    ) != function by {
                        if j < n {
                            assert(before[j] == tools[j]);
                        }
                    }
                },
            }
        }
    }
}

proof fn lemma_key_set(keys: Seq<String>, key: Seq<u8>)
    ensures
        key_set(keys).contains(key) <==> exists|k: int|
            0 <= k < keys.len() && key == vstd::utf8::encode_utf8((#[trigger] keys[k])@),
    decreases keys.len(),
{
    if keys.len() > 0 {
        let before = keys.drop_last();
        lemma_key_set(before, key);
        let n = keys.len() - 1;
        assert(keys[n] == keys.last());
        if key_set(before).contains(key) {
            let k = choose|k: int|
                0 <= k < before.len() && key == vstd::utf8::encode_utf8((#[trigger] before[k])@);
            assert(keys[k] == before[k]);
        }
        if exists|k: int|
            0 <= k < keys.len() && key == vstd::utf8::encode_utf8((#[trigger] keys[k])@) {
            let k = choose|k: int|
                0 <= k < keys.len() && key == vstd::utf8::encode_utf8((#[trigger] keys[k])@);
            if k < n {
                assert(before[k] == keys[k]);
            }
        }
    }
}

/// What is constrained follows the output: a name by the declared names, a key
/// by the keys of the tool that was named, and anything else by nothing.
pub proof fn the_slot_follows_the_output(d: &ConstrainedDecoder, output: Seq<u8>)
    requires
        d.machine() == run(fresh_machine(), output),
    ensures
        ({
            let m = run(fresh_machine(), output);
            d.slot() == match m.state {
                JsonState::InName => Some(d.names()),
                JsonState::InArgKey => d.keys(m.function),
                JsonState::Free => None,
            }
        }),
{
}

} // verus!
