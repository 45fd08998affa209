//! Needle 3 generation.
//!
//! A completion reasons inside `<think>` before it opens `<tool_call>`, so the
//! default budget is large and the call is looked for past the reasoning. The
//! model and the tokenizer run elsewhere; what is decided here is what they
//! are given, which tokens are kept, what each of them adds to the text, and
//! why a generation stops.

use vstd::prelude::*;
use vstd::utf8::encode_utf8;
use crate::floats::{nan, numeric, score_rank};
use crate::prompt::{
    build_prompt,
    compacted,
    prompt_text,
    THINK_END,
    THINK_START,
    TOOL_CALL_END,
    TOOL_CALL_START,
};
use crate::text::{
    chars_of,
    find_from,
    first_found,
    first_found_is_first,
    part_of,
    push_str,
    stands_at,
    text_of,
    trim,
    trimmed,
    trimming_takes_off_what_surrounds,
    white_space,
};
use crate::tokenizer::{bytes_of, bytes_of_char};
use crate::v3::cache::KvPrecision;
use crate::v3::slice::V3LoadError;

verus! {

/// Tokens a generation may produce unless told otherwise.
pub const DEFAULT_MAX_NEW_TOKENS: usize = 256;

/// Why generation stopped.
#[derive(Debug, Clone, Copy, PartialEq, Eq, Structural)]
pub enum StopReason {
    /// The end-of-sequence token.
    Eos,
    /// The assistant turn closed.
    ImEnd,
    /// The token budget ran out.
    MaxTokens,
    /// The context window ran out.
    MaxSeqLen,
}

/// Generation settings.
#[derive(Debug, Clone)]
pub struct V3Options {
    pub max_new_tokens: usize,
    /// The bits of a single-precision number; zero is greedy.
    pub temperature: u32,
    pub seed: u64,
    pub system: Option<String>,
    /// Hold the payload to the declared tools and argument keys.
    pub constrain: bool,
    /// How the session's keys and values are stored.
    pub kv_precision: KvPrecision,
}

impl Default for V3Options {
    fn default() -> (o: Self)
        ensures
            o.max_new_tokens == DEFAULT_MAX_NEW_TOKENS,
            o.temperature == 0,
            o.seed == 0,
            o.system is None,
            !o.constrain,
            o.kv_precision == KvPrecision::F32,
    {
        V3Options {
            max_new_tokens: DEFAULT_MAX_NEW_TOKENS,
            temperature: 0,
            seed: 0,
            system: None,
            constrain: false,
            kv_precision: KvPrecision::F32,
        }
    }
}

impl V3Options {
    /// The settings of a call that states them one by one, as the language
    /// bindings do. Zero tokens stands for the default budget.
    pub fn for_call(
        max_new_tokens: usize,
        temperature: u32,
        seed: u64,
        constrain: bool,
        kv_int8: bool,
    ) -> (o: Self)
        ensures
            o.max_new_tokens == if max_new_tokens == 0 {
                DEFAULT_MAX_NEW_TOKENS
            } else {
                max_new_tokens
            },
            o.temperature == temperature,
            o.seed == seed,
            o.system is None,
            o.constrain == constrain,
            o.kv_precision == if kv_int8 {
                KvPrecision::Int8
            } else {
                KvPrecision::F32
            },
    {
        V3Options {
            max_new_tokens: if max_new_tokens == 0 {
                DEFAULT_MAX_NEW_TOKENS
            } else {
                max_new_tokens
            },
            temperature,
            seed,
            system: None,
            constrain,
            kv_precision: if kv_int8 {
                KvPrecision::Int8
            } else {
                KvPrecision::F32
            },
        }
    }

    /// Whether the highest score is always picked: the temperature is at most
    /// zero.
    pub fn is_greedy(&self) -> (greedy: bool)
        ensures
            greedy == (!nan(self.temperature) && numeric(self.temperature) <= 0),
    {
        match score_rank(self.temperature) {
            Some(r) => r <= 0,
            None => self.temperature == 0xff80_0000,
        }
    }
}

/// What a generation produced.
#[derive(Debug, Clone)]
pub struct V3Result {
    /// The decoded completion, without the prompt.
    pub text: String,
    pub tokens: Vec<u32>,
    pub stop: StopReason,
    /// Positions consumed, prompt included.
    pub positions: usize,
}

/// The text between the first `open` and the next `close` after it; without a
/// `close`, everything after `open`.
pub open spec fn between_marks(text: Seq<char>, open: Seq<char>, close: Seq<char>) -> Option<
    Seq<char>,
> {
    match first_found(text, 0, open) {
        None => None,
        Some(at) => {
            let start = at + open.len();
            match first_found(text, start, close) {
                Some(end) => Some(text.subrange(start, end)),
                None => Some(text.skip(start)),
            }
        },
    }
}

fn between(text: &[char], open: &str, close: &str) -> (found: Option<Vec<char>>)
    ensures
        match found {
            Some(f) => between_marks(text@, open@, close@) == Some(f@),
            None => between_marks(text@, open@, close@) is None,
        },
{
    let total: usize = text.len();
    let opening = chars_of(open);
    let closing = chars_of(close);
    match find_from(text, 0, &opening) {
        None => None,
        Some(at) => {
            let start: usize = at + opening.len();
            match find_from(text, start, &closing) {
                Some(end) => Some(part_of(text, start, end)),
                None => {
                    let rest = part_of(text, start, total);
                    assert(rest@ =~= text@.skip(start as int));
                    Some(rest)
                },
            }
        },
    }
}

/// The payload of a completion's tool call; `None` where it makes no call.
pub open spec fn tool_call_in(text: Seq<char>) -> Option<Seq<char>> {
    match between_marks(text, TOOL_CALL_START@, TOOL_CALL_END@) {
        Some(s) => Some(trimmed(s)),
        None => None,
    }
}

/// The reasoning of a completion, where it has any.
pub open spec fn reasoning_in(text: Seq<char>) -> Option<Seq<char>> {
    match between_marks(text, THINK_START@, THINK_END@) {
        Some(s) => Some(trimmed(s)),
        None => None,
    }
}

/// Pull the tool-call payload out of a completion.
///
/// `Some("[]")` is a deliberate abstention: the model decided that no tool
/// applies. `None` means that it opened no call at all. A call that the budget
/// cut short yields what there is of it.
pub fn extract_tool_call(text: &str) -> (payload: Option<String>)
    ensures
        match payload {
            Some(p) => tool_call_in(text@) == Some(p@),
            None => tool_call_in(text@) is None,
        },
{
    let chars = chars_of(text);
    match between(&chars, TOOL_CALL_START, TOOL_CALL_END) {
        Some(s) => Some(text_of(&trim(&s))),
        None => None,
    }
}

/// The model's reasoning, when it emitted any.
pub fn reasoning(text: &str) -> (thought: Option<String>)
    ensures
        match thought {
            Some(t) => reasoning_in(text@) == Some(t@),
            None => reasoning_in(text@) is None,
        },
{
    let chars = chars_of(text);
    match between(&chars, THINK_START, THINK_END) {
        Some(s) => Some(text_of(&trim(&s))),
        None => None,
    }
}

/// What is wrapped in marks is found again, whatever stands before and after
/// it, as long as no mark stands earlier.
pub proof fn a_wrapped_payload_is_found(
    before: Seq<char>,
    open: Seq<char>,
    payload: Seq<char>,
    close: Seq<char>,
    after: Seq<char>,
)
    requires
        ({
            let text = before + open + payload + close + after;
            &&& forall|i: int| 0 <= i < before.len() ==> !#[trigger] stands_at(text, i, open)
            &&& forall|i: int|
                before.len() + open.len() <= i < before.len() + open.len() + payload.len()
                    ==> !#[trigger] stands_at(text, i, close)
        }),
    ensures
        between_marks(before + open + payload + close + after, open, close) == Some(payload),
{
    let text = before + open + payload + close + after;
    let at = before.len() as int;
    let start = at + open.len();
    let end = start + payload.len();
    assert(text.subrange(at, start) =~= open);
    assert(text.subrange(end, end + close.len()) =~= close);
    assert(stands_at(text, at, open));
    assert(stands_at(text, end, close));
    first_found_is_first(text, 0, open);
    first_found_is_first(text, start, close);
    assert(text.subrange(start, end) =~= payload);
}

/// A payload whose closing mark never came is everything after the opening
/// one.
pub proof fn an_unterminated_payload_is_kept(before: Seq<char>, open: Seq<char>, payload: Seq<char>, close: Seq<char>)
    requires
        ({
            let text = before + open + payload;
            &&& forall|i: int| 0 <= i < before.len() ==> !#[trigger] stands_at(text, i, open)
            &&& forall|i: int|
                before.len() + open.len() <= i <= text.len() ==> !#[trigger] stands_at(
                    text,
                    i,
                    close,
                )
        }),
    ensures
        between_marks(before + open + payload, open, close) == Some(payload),
{
    let text = before + open + payload;
    let at = before.len() as int;
    let start = at + open.len();
    assert(text.subrange(at, start) =~= open);
    assert(stands_at(text, at, open));
    first_found_is_first(text, 0, open);
    first_found_is_first(text, start, close);
    assert(text.skip(start) =~= payload);
}

/// `mark` stands nowhere in the text from `from` on, short of `to`.
pub open spec fn no_mark(text: Seq<char>, from: int, to: int, mark: Seq<char>) -> bool {
    forall|i: int| from <= i < to ==> !#[trigger] stands_at(text, i, mark)
}

/// All of it is white space.
pub open spec fn blank_text(s: Seq<char>) -> bool {
    forall|i: int| 0 <= i < s.len() ==> white_space(#[trigger] s[i])
}

/// A text without white space at its ends.
pub open spec fn no_blank_ends(s: Seq<char>) -> bool {
    s.len() > 0 ==> !white_space(s[0]) && !white_space(s.last())
}

/// The payload of a call comes out whole, character for character: whatever
/// stands before the opening mark and behind the closing one, only the white
/// space around the payload is taken off.
pub proof fn a_call_comes_out_whole(
    before: Seq<char>,
    left: Seq<char>,
    payload: Seq<char>,
    right: Seq<char>,
    after: Seq<char>,
)
    requires
        blank_text(left),
        no_blank_ends(payload),
        blank_text(right),
        ({
            let inner = left + payload + right;
            let text = before + "<tool_call>"@ + inner + "</tool_call>"@ + after;
            let start = before.len() + "<tool_call>"@.len();
            &&& no_mark(text, 0, before.len() as int, "<tool_call>"@)
            &&& no_mark(text, start as int, (start + inner.len()) as int, "</tool_call>"@)
        }),
    ensures
        tool_call_in(
            before + "<tool_call>"@ + (left + payload + right) + "</tool_call>"@ + after,
        ) == Some(payload),
{
    a_wrapped_payload_is_found(
        before,
        "<tool_call>"@,
        left + payload + right,
        "</tool_call>"@,
        after,
    );
    trimming_takes_off_what_surrounds(left, payload, right);
}

/// A call that was cut short comes out as far as it goes.
pub proof fn a_call_cut_short_comes_out(
    before: Seq<char>,
    left: Seq<char>,
    payload: Seq<char>,
    right: Seq<char>,
)
    requires
        blank_text(left),
        no_blank_ends(payload),
        blank_text(right),
        ({
            let inner = left + payload + right;
            let text = before + "<tool_call>"@ + inner;
            let start = before.len() + "<tool_call>"@.len();
            &&& no_mark(text, 0, before.len() as int, "<tool_call>"@)
            &&& no_mark(text, start as int, text.len() as int, "</tool_call>"@)
        }),
    ensures
        tool_call_in(before + "<tool_call>"@ + (left + payload + right)) == Some(payload),
{
    let inner = left + payload + right;
    let text = before + "<tool_call>"@ + inner;
    reveal_strlit("</tool_call>");
    assert(!stands_at(text, text.len() as int, "</tool_call>"@));
    an_unterminated_payload_is_kept(before, "<tool_call>"@, inner, "</tool_call>"@);
    trimming_takes_off_what_surrounds(left, payload, right);
}

/// A completion makes a call exactly where the opening mark stands in it.
pub proof fn a_call_needs_its_opening_mark(text: Seq<char>)
    ensures
        tool_call_in(text) is None <==> no_mark(text, 0, text.len() as int, "<tool_call>"@),
        reasoning_in(text) is None <==> no_mark(text, 0, text.len() as int, "<think>"@),
{
    reveal_strlit("<tool_call>");
    reveal_strlit("<think>");
    first_found_is_first(text, 0, "<tool_call>"@);
    first_found_is_first(text, 0, "<think>"@);
    assert(!stands_at(text, text.len() as int, "<tool_call>"@));
    assert(!stands_at(text, text.len() as int, "<think>"@));
}

/// The reasoning comes out whole, like a call's payload.
pub proof fn reasoning_comes_out_whole(
    before: Seq<char>,
    left: Seq<char>,
    thought: Seq<char>,
    right: Seq<char>,
    after: Seq<char>,
)
    requires
        blank_text(left),
        no_blank_ends(thought),
        blank_text(right),
        ({
            let inner = left + thought + right;
            let text = before + "<think>"@ + inner + "</think>"@ + after;
            let start = before.len() + "<think>"@.len();
            &&& no_mark(text, 0, before.len() as int, "<think>"@)
            &&& no_mark(text, start as int, (start + inner.len()) as int, "</think>"@)
        }),
    ensures
        reasoning_in(before + "<think>"@ + (left + thought + right) + "</think>"@ + after) == Some(
            thought,
        ),
{
    a_wrapped_payload_is_found(before, "<think>"@, left + thought + right, "</think>"@, after);
    trimming_takes_off_what_surrounds(left, thought, right);
}

/// The ids that a generation starts from: the beginning token, then the
/// prompt.
pub fn prompt_ids(bos: u32, encoded: &[u32]) -> (ids: Vec<u32>)
    ensures
        ids@ == seq![bos] + encoded@,
{
    let mut ids: Vec<u32> = Vec::new();
    ids.push(bos);
    assert(ids@ =~= seq![bos] + encoded@.take(0));
    let mut i: usize = 0;
    while i < encoded.len()
        invariant
            i <= encoded@.len(),
            ids@ == seq![bos] + encoded@.take(i as int),
        decreases encoded.len() - i,
    {
        ids.push(encoded[i]);
        i = i + 1;
        assert(ids@ =~= seq![bos] + encoded@.take(i as int));
    }
    assert(encoded@.take(i as int) =~= encoded@);
    ids
}

/// The ids of a text behind the beginning token, cut to the context: what of a
/// prompt the model is fed, and what a completion is scored on.
pub fn bounded_ids(bos: u32, encoded: &[u32], max_seq_len: usize) -> (ids: Vec<u32>)
    ensures
        ids@ == (seq![bos] + encoded@).take(
            if max_seq_len <= encoded@.len() + 1 {
                max_seq_len as int
            } else {
                encoded@.len() as int + 1
            },
        ),
{
    let mut ids: Vec<u32> = Vec::new();
    let ghost all = seq![bos] + encoded@;
    if max_seq_len > 0 {
        ids.push(bos);
        assert(ids@ =~= all.take(1));
        let mut i: usize = 0;
        while i < encoded.len() && i + 1 < max_seq_len
            invariant
                i <= encoded@.len(),
                i < max_seq_len,
                all == seq![bos] + encoded@,
                ids@ == all.take(i + 1),
            decreases encoded.len() - i,
        {
            ids.push(encoded[i]);
            i = i + 1;
            assert(ids@ =~= all.take(i + 1));
        }
    } else {
        assert(ids@ =~= all.take(0));
    }
    ids
}

/// The text that a completion is scored on: its prompt, then itself.
pub fn scored_text(query: &str, tools_json: &str, completion: &str) -> (text: String)
    ensures
        text@ == prompt_text(query@, compacted(tools_json@, false), None) + completion@,
{
    let prompt = build_prompt(query, tools_json, None);
    let mut out = chars_of(prompt.as_str());
    push_str(&mut out, completion);
    text_of(&out)
}

/// Where a generation stands.
pub struct GenerationState {
    pub tokens: Seq<u32>,
    /// Tokens that may still be picked.
    pub left: nat,
    /// The context window allows fewer tokens than were asked for.
    pub window_bound: bool,
    /// Why it stopped, once it has.
    pub stop: Option<StopReason>,
}

/// How many tokens may follow a prompt.
pub open spec fn token_budget(prompt: nat, max_seq_len: nat, max_new: nat) -> nat {
    let room = if max_seq_len >= prompt {
        (max_seq_len - prompt) as nat
    } else {
        0
    };
    if room <= max_new {
        room
    } else {
        max_new
    }
}

/// The context window, and not the number of tokens asked for, bounds what
/// may follow a prompt.
pub open spec fn bound_by_window(prompt: nat, max_seq_len: nat, max_new: nat) -> bool {
    prompt + max_new > max_seq_len
}

/// Why a generation stops that may pick nothing more.
pub open spec fn spent(window_bound: bool) -> StopReason {
    if window_bound {
        StopReason::MaxSeqLen
    } else {
        StopReason::MaxTokens
    }
}

/// A generation that has picked nothing. One that may not pick anything has
/// stopped already.
pub open spec fn fresh_generation(prompt: nat, max_seq_len: nat, max_new: nat) -> GenerationState {
    let budget = token_budget(prompt, max_seq_len, max_new);
    let window_bound = bound_by_window(prompt, max_seq_len, max_new);
    GenerationState {
        tokens: Seq::empty(),
        left: budget,
        window_bound,
        stop: if budget == 0 {
            Some(spent(window_bound))
        } else {
            None
        },
    }
}

/// One token picked. The end tokens stop the generation and are not kept.
pub open spec fn token_step(
    s: GenerationState,
    next: u32,
    eos: u32,
    im_end: Option<u32>,
) -> GenerationState {
    if s.stop is Some {
        s
    } else if next == eos {
        GenerationState { stop: Some(StopReason::Eos), ..s }
    } else if im_end == Some(next) {
        GenerationState { stop: Some(StopReason::ImEnd), ..s }
    } else {
        GenerationState { tokens: s.tokens.push(next), left: (s.left - 1) as nat, ..s }
    }
}

/// The context and the budget looked at, once a token is kept and before it is
/// fed to the model, which stands at `pos`. A spent budget is reported as a
/// full context where the context bounds it.
pub open spec fn room_step(s: GenerationState, pos: nat, max_seq_len: nat) -> GenerationState {
    if s.stop is Some {
        s
    } else if pos >= max_seq_len {
        GenerationState { stop: Some(StopReason::MaxSeqLen), ..s }
    } else if s.left == 0 {
        GenerationState { stop: Some(spent(s.window_bound)), ..s }
    } else {
        s
    }
}

/// What to do with a token that was picked.
#[derive(Debug, Clone, Copy, PartialEq, Eq, Structural)]
pub enum TokenAction {
    /// Decode the tokens kept so far, and report what is new.
    Keep,
    /// The generation is over.
    Stop,
}

/// What to do after a token was kept.
#[derive(Debug, Clone, Copy, PartialEq, Eq, Structural)]
pub enum RoomAction {
    /// Feed the token to the model and pick the next one.
    Continue,
    /// Feed the token to the model; the generation is over with it.
    FeedAndStop,
    /// The generation is over; the context has no room to feed the token.
    Stop,
}

/// The place in `full` that lies `n` bytes behind its start.
pub open spec fn at_byte(full: Seq<char>, n: nat, k: int) -> bool {
    0 <= k <= full.len() && encode_utf8(full.take(k)).len() == n
}

/// A generation in progress.
pub struct Generation {
    tokens: Vec<u32>,
    emitted: Vec<char>,
    left: usize,
    window_bound: bool,
    stop: Option<StopReason>,
    eos: u32,
    im_end: Option<u32>,
    max_seq_len: usize,
}

impl Generation {
    pub closed spec fn state(&self) -> GenerationState {
        GenerationState {
            tokens: self.tokens@,
            left: self.left as nat,
            window_bound: self.window_bound,
            stop: self.stop,
        }
    }

    /// The text that was reported so far.
    pub closed spec fn emitted(&self) -> Seq<char> {
        self.emitted@
    }

    pub closed spec fn eos(&self) -> u32 {
        self.eos
    }

    pub closed spec fn im_end(&self) -> Option<u32> {
        self.im_end
    }

    pub closed spec fn max_seq_len(&self) -> nat {
        self.max_seq_len as nat
    }

    /// What does not change over a generation.
    pub open spec fn same_model(&self, other: &Self) -> bool {
        self.eos() == other.eos() && self.im_end() == other.im_end() && self.max_seq_len()
            == other.max_seq_len()
    }

    /// A generation behind a prompt.
    pub fn start(
        prompt_len: usize,
        max_seq_len: usize,
        max_new_tokens: usize,
        eos: u32,
        im_end: Option<u32>,
    ) -> (g: Self)
        ensures
            g.state() == fresh_generation(
                prompt_len as nat,
                max_seq_len as nat,
                max_new_tokens as nat,
            ),
            g.emitted() == Seq::<char>::empty(),
            g.eos() == eos,
            g.im_end() == im_end,
            g.max_seq_len() == max_seq_len,
    {
        let room: usize = if max_seq_len >= prompt_len {
            max_seq_len - prompt_len
        } else {
            0
        };
        let window_bound: bool = prompt_len > max_seq_len || max_new_tokens > room;
        let budget: usize = if room <= max_new_tokens {
            room
        } else {
            max_new_tokens
        };
        let stop: Option<StopReason> = if budget == 0 {
            Some(
                if window_bound {
                    StopReason::MaxSeqLen
                } else {
                    StopReason::MaxTokens
                },
            )
        } else {
            None
        };
        Generation {
            tokens: Vec::new(),
            emitted: Vec::new(),
            left: budget,
            window_bound,
            stop,
            eos,
            im_end,
            max_seq_len,
        }
    }

    /// How many tokens may still be picked.
    pub fn left(&self) -> (n: usize)
        ensures
            n == self.state().left,
    {
        self.left
    }

    /// The tokens kept so far.
    pub fn tokens(&self) -> (tokens: &[u32])
        ensures
            tokens@ == self.state().tokens,
    {
        self.tokens.as_slice()
    }

    /// Why the generation stopped; `None` while it runs.
    pub fn stop(&self) -> (stop: Option<StopReason>)
        ensures
            stop == self.state().stop,
    {
        self.stop
    }

    /// Take the token that was picked.
    pub fn accept(&mut self, next: u32) -> (action: TokenAction)
        requires
            old(self).state().stop is None,
            old(self).state().left > 0,
        ensures
            final(self).state() == token_step(
                old(self).state(),
                next,
                old(self).eos(),
                old(self).im_end(),
            ),
            final(self).same_model(old(self)),
            final(self).emitted() == old(self).emitted(),
            action == (if final(self).state().stop is Some {
                TokenAction::Stop
            } else {
                TokenAction::Keep
            }),
    {
        if next == self.eos {
            self.stop = Some(StopReason::Eos);
            return TokenAction::Stop;
        }
        let closes: bool = match self.im_end {
            Some(id) => next == id,
            None => false,
        };
        if closes {
            self.stop = Some(StopReason::ImEnd);
            return TokenAction::Stop;
        }
        self.tokens.push(next);
        self.left = self.left - 1;
        TokenAction::Keep
    }

    /// What the decoded text adds to what was reported: everything behind as
    /// many bytes as were reported before, where there is more than that.
    pub fn emit(&mut self, full: &str) -> (delta: Option<String>)
        requires
            encode_utf8(full@).len() > encode_utf8(old(self).emitted()).len() ==> exists|k: int|
                #[trigger]
                at_byte(full@, encode_utf8(old(self).emitted()).len(), k),
        ensures
            final(self).state() == old(self).state(),
            final(self).same_model(old(self)),
            match delta {
                Some(d) => {
                    &&& encode_utf8(full@).len() > encode_utf8(old(self).emitted()).len()
                    &&& d@ == report(old(self).emitted(), full@)
                    &&& final(self).emitted() == full@
                },
                None => {
                    &&& encode_utf8(full@).len() <= encode_utf8(old(self).emitted()).len()
                    &&& final(self).emitted() == old(self).emitted()
                },
            },
    {
        let chars = chars_of(full);
        let total: usize = chars.len();
        let have: usize = bytes_of(&self.emitted).len();
        let all: usize = bytes_of(&chars).len();
        if all <= have {
            return None;
        }
        let ghost n = encode_utf8(self.emitted@).len();
        let mut k: usize = 0;
        let mut at: usize = 0;
        assert(chars@.take(0) =~= Seq::<char>::empty());
        assert(encode_utf8(Seq::<char>::empty()).len() == 0);
        while at != have
            invariant
                k <= total == chars@.len(),
                have == n,
                at == encode_utf8(chars@.take(k as int)).len(),
                exists|j: int| k <= j && #[trigger] at_byte(chars@, n, j),
            decreases total - k,
        {
            let width: usize = bytes_of_char(chars[k]).len();
            proof {
                let j = choose|j: int| k <= j && #[trigger] at_byte(chars@, n, j);
                assert(k < j);
                lemma_bytes_grow(chars@, (k + 1) as int, j);
                lemma_bytes_add(chars@.take(k as int), seq![chars@[k as int]]);
                assert(chars@.take(k as int) + seq![chars@[k as int]] =~= chars@.take(k + 1));
            }
            at = at + width;
            k = k + 1;
        }
        let rest = part_of(&chars, k, total);
        assert(rest@ =~= chars@.skip(k as int));
        proof {
            assert(at_byte(full@, n, k as int));
            let c = choose|c: int| at_byte(full@, n, c);
            if c < k {
                lemma_bytes_grow_strictly(full@, c, k as int);
            }
            if k < c {
                lemma_bytes_grow_strictly(full@, k as int, c);
            }
        }
        self.emitted = chars;
        Some(text_of(&rest))
    }

    /// Look at the context and the budget, with the model at position `pos`,
    /// once a token was kept.
    pub fn check_room(&mut self, pos: usize) -> (action: RoomAction)
        requires
            old(self).state().stop is None,
        ensures
            final(self).state() == room_step(
                old(self).state(),
                pos as nat,
                old(self).max_seq_len(),
            ),
            final(self).same_model(old(self)),
            final(self).emitted() == old(self).emitted(),
            action == (if final(self).state().stop is None {
                RoomAction::Continue
            } else if pos >= old(self).max_seq_len() {
                RoomAction::Stop
            } else {
                RoomAction::FeedAndStop
            }),
    {
        if pos >= self.max_seq_len {
            self.stop = Some(StopReason::MaxSeqLen);
            RoomAction::Stop
        } else if self.left == 0 {
            self.stop = Some(
                if self.window_bound {
                    StopReason::MaxSeqLen
                } else {
                    StopReason::MaxTokens
                },
            );
            RoomAction::FeedAndStop
        } else {
            RoomAction::Continue
        }
    }

    /// What the generation produced.
    pub fn finish(self, text: String, positions: usize) -> (r: V3Result)
        requires
            self.state().stop is Some,
        ensures
            r.text@ == text@,
            r.tokens@ == self.state().tokens,
            Some(r.stop) == self.state().stop,
            r.positions == positions,
    {
        let stop: StopReason = match self.stop {
            Some(stop) => stop,
            None => StopReason::MaxTokens,
        };
        V3Result { text, tokens: self.tokens, stop, positions }
    }
}

proof fn lemma_bytes_grow(s: Seq<char>, a: int, b: int)
    requires
        0 <= a <= b <= s.len(),
    ensures
        encode_utf8(s.take(a)).len() <= encode_utf8(s.take(b)).len(),
{
    lemma_bytes_add(s.take(a), s.subrange(a, b));
    assert(s.take(a) + s.subrange(a, b) =~= s.take(b));
}

/// The bytes of two texts in a row are the bytes of the one, then of the
/// other.
pub proof fn lemma_bytes_add(a: Seq<char>, b: Seq<char>)
    ensures
        encode_utf8(a + b) == encode_utf8(a) + encode_utf8(b),
    decreases a.len(),
{
    if a.len() == 0 {
        assert(a + b =~= b);
        assert(encode_utf8(a) + encode_utf8(b) =~= encode_utf8(b));
    } else {
        lemma_bytes_add(a.drop_first(), b);
        assert((a + b).drop_first() =~= a.drop_first() + b);
        assert((a + b)[0] == a[0]);
        assert(encode_utf8(a + b) =~= encode_utf8(a) + encode_utf8(b));
    }
}

/// What was reported before, with what is reported now behind it, is the text
/// as it now reads, where the text only grew at its end.
proof fn lemma_report_completes_the_text(emitted: Seq<char>, full: Seq<char>, k: int)
    requires
        emitted.len() <= full.len(),
        full.take(emitted.len() as int) == emitted,
        at_byte(full, encode_utf8(emitted).len(), k),
    ensures
        emitted + full.skip(k) == full,
{
    let n = emitted.len() as int;
    if k < n {
        lemma_bytes_grow_strictly(full, k, n);
    }
    if n < k {
        lemma_bytes_grow_strictly(full, n, k);
    }
    assert(full.take(n) + full.skip(n) =~= full);
}

/// What is reported when the text reads `full` and `emitted` was reported
/// before.
pub open spec fn report(emitted: Seq<char>, full: Seq<char>) -> Seq<char> {
    let n = encode_utf8(emitted).len();
    if encode_utf8(full).len() > n {
        full.skip(choose|k: int| at_byte(full, n, k))
    } else {
        Seq::empty()
    }
}

/// All that is reported while the text reads like this, one after another.
pub open spec fn reports(texts: Seq<Seq<char>>) -> Seq<char>
    decreases texts.len(),
{
    if texts.len() == 0 {
        Seq::empty()
    } else {
        let before = reports(texts.drop_last());
        before + report(emitted_after(texts.drop_last()), texts.last())
    }
}

/// What counts as reported after the text read like this.
pub open spec fn emitted_after(texts: Seq<Seq<char>>) -> Seq<char>
    decreases texts.len(),
{
    if texts.len() == 0 {
        Seq::empty()
    } else {
        let before = emitted_after(texts.drop_last());
        if encode_utf8(texts.last()).len() > encode_utf8(before).len() {
            texts.last()
        } else {
            before
        }
    }
}

/// Each text continues the one before it.
pub open spec fn only_grows(texts: Seq<Seq<char>>) -> bool {
    forall|i: int|
        #![trigger texts[i]]
        0 < i < texts.len() ==> texts[i - 1].len() <= texts[i].len() && texts[i].take(
            texts[i - 1].len() as int,
        ) == texts[i - 1]
}

/// All the reports, one after another, are the text as it reads at the end,
/// whenever it only ever grew.
pub proof fn reports_add_up_to_the_text(texts: Seq<Seq<char>>)
    requires
        only_grows(texts),
        texts.len() > 0,
    ensures
        reports(texts) == texts.last(),
        emitted_after(texts) == texts.last(),
    decreases texts.len(),
{
    let earlier = texts.drop_last();
    let full = texts.last();
    assert(full == texts[texts.len() - 1]);
    if earlier.len() > 0 {
        assert forall|i: int| #![trigger earlier[i]]
            0 < i < earlier.len() implies earlier[i - 1].len() <= earlier[i].len()
            && earlier[i].take(earlier[i - 1].len() as int) == earlier[i - 1] by {
            assert(texts[i] == earlier[i]);
        }
        reports_add_up_to_the_text(earlier);
        assert(earlier.last() == texts[texts.len() - 2]);
    } else {
        assert(full.take(0) =~= Seq::<char>::empty());
        assert(reports(earlier) =~= Seq::<char>::empty());
        assert(emitted_after(earlier) =~= Seq::<char>::empty());
    }
    let emitted = emitted_after(earlier);
    assert(reports(earlier) == emitted);
    let n = emitted.len() as int;
    assert(full.take(n) == emitted);
    if full.len() > n {
        lemma_bytes_grow_strictly(full, n, full.len() as int);
        assert(full.take(full.len() as int) =~= full);
        assert(at_byte(full, encode_utf8(emitted).len(), n));
        let k = choose|k: int| at_byte(full, encode_utf8(emitted).len(), k);
        lemma_report_completes_the_text(emitted, full, k);
    } else {
        assert(full.take(n) =~= full);
        assert(emitted + Seq::<char>::empty() =~= emitted);
    }
}

proof fn lemma_bytes_grow_strictly(s: Seq<char>, a: int, b: int)
    requires
        0 <= a < b <= s.len(),
    ensures
        encode_utf8(s.take(a)).len() < encode_utf8(s.take(b)).len(),
{
    let mid = s.subrange(a, b);
    lemma_bytes_add(s.take(a), mid);
    assert(s.take(a) + mid =~= s.take(b));
    assert(mid.len() > 0);
    assert(encode_utf8(mid) == vstd::utf8::encode_scalar(mid[0] as u32) + encode_utf8(
        mid.drop_first(),
    ));
}

/// The tokens picked so far and those that may follow never exceed the budget,
/// which itself never takes a prompt that fits past the end of the context.
pub proof fn a_generation_stays_in_the_context(
    prompt: nat,
    max_seq_len: nat,
    max_new: nat,
    picks: Seq<u32>,
    positions: Seq<nat>,
    eos: u32,
    im_end: Option<u32>,
)
    requires
        positions.len() == picks.len(),
    ensures
        ({
            let budget = token_budget(prompt, max_seq_len, max_new);
            let s = generation_run(
                fresh_generation(prompt, max_seq_len, max_new),
                picks,
                positions,
                max_seq_len,
                eos,
                im_end,
            );
            &&& s.tokens.len() + s.left == budget
            &&& s.tokens.len() <= max_new
            &&& prompt <= max_seq_len ==> prompt + s.tokens.len() <= max_seq_len
            &&& s.stop is None ==> s.left > 0
            &&& forall|i: int|
                0 <= i < s.tokens.len() ==> s.tokens[i] != eos && im_end != Some(
                    #[trigger] s.tokens[i],
                )
        }),
    decreases picks.len(),
{
    if picks.len() > 0 {
        a_generation_stays_in_the_context(
            prompt,
            max_seq_len,
            max_new,
            picks.drop_last(),
            positions.drop_last(),
            eos,
            im_end,
        );
    }
}

/// Tokens picked one after another, the model at the given position after
/// each.
pub open spec fn generation_run(
    s: GenerationState,
    picks: Seq<u32>,
    positions: Seq<nat>,
    max_seq_len: nat,
    eos: u32,
    im_end: Option<u32>,
) -> GenerationState
    decreases picks.len(),
{
    if picks.len() == 0 {
        s
    } else {
        let before = generation_run(
            s,
            picks.drop_last(),
            positions.drop_last(),
            max_seq_len,
            eos,
            im_end,
        );
        room_step(token_step(before, picks.last(), eos, im_end), positions.last(), max_seq_len)
    }
}

/// No end token is among the picks.
pub open spec fn no_end_token(picks: Seq<u32>, eos: u32, im_end: Option<u32>) -> bool {
    forall|i: int|
        0 <= i < picks.len() ==> #[trigger] picks[i] != eos && im_end != Some(picks[i])
}

/// The positions of a model that is fed a prompt and then every kept token: at
/// each look at the room, the last kept token is not fed yet.
pub open spec fn driven_positions(prompt: nat, n: nat) -> Seq<nat> {
    Seq::new(n, |i: int| (prompt + i) as nat)
}

/// Without an end token, every pick is kept until the budget is spent, and a
/// spent budget gives the reason.
proof fn lemma_run_spends_the_budget(
    prompt: nat,
    max_seq_len: nat,
    max_new: nat,
    picks: Seq<u32>,
    eos: u32,
    im_end: Option<u32>,
)
    requires
        prompt <= max_seq_len,
        no_end_token(picks, eos, im_end),
    ensures
        ({
            let budget = token_budget(prompt, max_seq_len, max_new);
            let s = generation_run(
                fresh_generation(prompt, max_seq_len, max_new),
                picks,
                driven_positions(prompt, picks.len()),
                max_seq_len,
                eos,
                im_end,
            );
            let kept = if picks.len() <= budget {
                picks.len()
            } else {
                budget
            };
            &&& s.tokens == picks.take(kept as int)
            &&& s.left == budget - kept
            &&& s.window_bound == bound_by_window(prompt, max_seq_len, max_new)
            &&& s.stop == if kept == budget {
                Some(spent(s.window_bound))
            } else {
                None
            }
        }),
    decreases picks.len(),
{
    let budget = token_budget(prompt, max_seq_len, max_new);
    if picks.len() == 0 {
        assert(picks.take(0) =~= Seq::<u32>::empty());
    } else {
        let before = picks.drop_last();
        let positions = driven_positions(prompt, picks.len());
        assert(positions.drop_last() =~= driven_positions(prompt, before.len()));
        assert forall|i: int| 0 <= i < before.len() implies #[trigger] before[i] != eos && im_end
            != Some(before[i]) by {
            assert(before[i] == picks[i]);
        }
        lemma_run_spends_the_budget(prompt, max_seq_len, max_new, before, eos, im_end);
        assert(picks.last() == picks[picks.len() - 1]);
        if picks.len() <= budget {
            assert(before.take(before.len() as int).push(picks.last()) =~= picks.take(
                picks.len() as int,
            ));
        } else {
            assert(before.take(budget as int) =~= picks.take(budget as int));
        }
    }
}

/// A full context is reported as one: where a prompt fits, more tokens are
/// asked for than the context has room for, and no end token is picked before
/// that room is used up, the generation fills the context and stops because
/// the context ran out.
pub proof fn a_full_context_is_reported(
    prompt: nat,
    max_seq_len: nat,
    max_new: nat,
    picks: Seq<u32>,
    eos: u32,
    im_end: Option<u32>,
)
    requires
        prompt <= max_seq_len,
        prompt + max_new > max_seq_len,
        no_end_token(picks, eos, im_end),
        picks.len() >= max_seq_len - prompt,
    ensures
        ({
            let s = generation_run(
                fresh_generation(prompt, max_seq_len, max_new),
                picks,
                driven_positions(prompt, picks.len()),
                max_seq_len,
                eos,
                im_end,
            );
            &&& s.stop == Some(StopReason::MaxSeqLen)
            &&& s.tokens == picks.take(max_seq_len - prompt)
        }),
{
    lemma_run_spends_the_budget(prompt, max_seq_len, max_new, picks, eos, im_end);
}

/// A spent token budget is reported as one: where the context has room for
/// every token asked for, and no end token is picked among them, all of them
/// are kept and the generation stops because the budget ran out.
pub proof fn a_spent_budget_is_reported(
    prompt: nat,
    max_seq_len: nat,
    max_new: nat,
    picks: Seq<u32>,
    eos: u32,
    im_end: Option<u32>,
)
    requires
        prompt + max_new <= max_seq_len,
        no_end_token(picks, eos, im_end),
        picks.len() >= max_new,
    ensures
        ({
            let s = generation_run(
                fresh_generation(prompt, max_seq_len, max_new),
                picks,
                driven_positions(prompt, picks.len()),
                max_seq_len,
                eos,
                im_end,
            );
            &&& s.stop == Some(StopReason::MaxTokens)
            &&& s.tokens == picks.take(max_new as int)
        }),
{
    lemma_run_spends_the_budget(prompt, max_seq_len, max_new, picks, eos, im_end);
}

/// A prompt that is longer than the context gets no token: the context ran out
/// before anything was picked.
pub proof fn a_prompt_past_the_context_gets_nothing(prompt: nat, max_seq_len: nat, max_new: nat)
    requires
        prompt > max_seq_len,
    ensures
        fresh_generation(prompt, max_seq_len, max_new).stop == Some(StopReason::MaxSeqLen),
        fresh_generation(prompt, max_seq_len, max_new).left == 0,
        fresh_generation(prompt, max_seq_len, max_new).tokens.len() == 0,
{
}

/// The next state of the generator.
pub open spec fn mix_state(s: u64) -> u64 {
    ((s + 0x9E37_79B9_7F4A_7C15) % 0x1_0000_0000_0000_0000) as u64
}

/// One round of mixing: fold the high bits in, then multiply.
pub open spec fn mix_round(z: u64, shift: u64, factor: u64) -> u64 {
    (((z ^ (z >> shift)) * factor) % 0x1_0000_0000_0000_0000) as u64
}

/// The number that a state gives.
pub open spec fn mix_output(s: u64) -> u64 {
    let a = mix_round(s, 30, 0xBF58_476D_1CE4_E5B9);
    let b = mix_round(a, 27, 0x94D0_49BB_1331_11EB);
    b ^ (b >> 31u64)
}

/// The state after `n` draws from a seed.
pub open spec fn mix_after(seed: u64, n: nat) -> u64
    decreases n,
{
    if n == 0 {
        seed
    } else {
        mix_state(mix_after(seed, (n - 1) as nat))
    }
}

/// SplitMix64: small, seedable and reproducible. Not cryptographic.
#[derive(Debug, Clone, Copy, PartialEq, Eq, Structural)]
pub struct SplitMix64 {
    pub state: u64,
}

impl SplitMix64 {
    pub fn new(seed: u64) -> (r: Self)
        ensures
            r.state == seed,
    {
        SplitMix64 { state: seed }
    }

    pub fn next_u64(&mut self) -> (n: u64)
        ensures
            final(self).state == mix_state(old(self).state),
            n == mix_output(mix_state(old(self).state)),
    {
        self.state = self.state.wrapping_add(0x9E37_79B9_7F4A_7C15);
        let z: u64 = self.state;
        let a: u64 = (z ^ (z >> 30u64)).wrapping_mul(0xBF58_476D_1CE4_E5B9);
        let b: u64 = (a ^ (a >> 27u64)).wrapping_mul(0x94D0_49BB_1331_11EB);
        b ^ (b >> 31u64)
    }

    /// A draw of fifty-three bits: the numerator of a number in `[0, 1)` over
    /// `2^53`.
    pub fn next_draw(&mut self) -> (n: u64)
        ensures
            final(self).state == mix_state(old(self).state),
            n == mix_output(mix_state(old(self).state)) / 0x800,
            n < 0x20_0000_0000_0000,
    {
        let z: u64 = self.next_u64();
        assert(z >> 11u64 == z / 0x800) by (bit_vector);
        assert(z / 0x800 < 0x20_0000_0000_0000u64) by (bit_vector);
        z >> 11u64
    }
}

/// A seed replays: the state after any number of draws follows from it alone,
/// and drawing on continues the same stream.
pub proof fn a_seed_replays(seed: u64, m: nat, n: nat)
    ensures
        mix_after(mix_after(seed, m), n) == mix_after(seed, m + n),
    decreases n,
{
    if n > 0 {
        a_seed_replays(seed, m, (n - 1) as nat);
    }
}

/// Anything that can go wrong loading an engine.
#[allow(inconsistent_fields)]
#[derive(Debug)]
pub enum V3EngineError {
    /// The file could not be read; what the system says of it.
    Io(String),
    Load(V3LoadError),
    NoTokenizer,
    BadTokenizer,
}

/// SplitMix64, step by step: the state grows by the golden-ratio constant, and
/// the number is the state with its high bits folded in and multiplied twice,
/// and folded in once more, all modulo the word.
pub proof fn a_draw_is_splitmix64(state: u64, z: u64, a: u64, b: u64)
    requires
        z as int == (state as int + 11400714819323198485) % 18446744073709551616,
        a as int == ((z ^ (z / 1073741824)) as int * 13787848793156543929) % 18446744073709551616,
        b as int == ((a ^ (a / 134217728)) as int * 10723151780598845931) % 18446744073709551616,
    ensures
        mix_state(state) == z,
        mix_output(mix_state(state)) == b ^ (b / 2147483648),
{
    assert(z >> 30 == z / 1073741824) by (bit_vector);
    assert(a >> 27 == a / 134217728) by (bit_vector);
    assert(b >> 31 == b / 2147483648) by (bit_vector);
}

/// An end token ends the generation where it is picked: what was picked before
/// it is kept, it is not, and it gives the reason. `k` is the place of the
/// first end token, inside the context and the budget.
pub proof fn an_end_token_ends_the_generation(
    prompt: nat,
    max_seq_len: nat,
    max_new: nat,
    picks: Seq<u32>,
    k: int,
    eos: u32,
    im_end: Option<u32>,
)
    requires
        0 <= k < picks.len(),
        prompt + k < max_seq_len,
        k < max_new,
        picks[k] == eos || im_end == Some(picks[k]),
        forall|i: int| 0 <= i < k ==> #[trigger] picks[i] != eos && im_end != Some(picks[i]),
    ensures
        ({
            let s = generation_run(
                fresh_generation(prompt, max_seq_len, max_new),
                picks,
                driven_positions(prompt, picks.len()),
                max_seq_len,
                eos,
                im_end,
            );
            &&& s.tokens == picks.take(k)
            &&& s.stop == Some(
                if picks[k] == eos {
                    StopReason::Eos
                } else {
                    StopReason::ImEnd
                },
            )
        }),
    decreases picks.len(),
{
    let before = picks.drop_last();
    let positions = driven_positions(prompt, picks.len());
    assert(positions.drop_last() =~= driven_positions(prompt, before.len()));
    assert(picks.last() == picks[picks.len() - 1]);
    if k < picks.len() - 1 {
        assert(before[k] == picks[k]);
        assert forall|i: int| 0 <= i < k implies #[trigger] before[i] != eos && im_end != Some(
            before[i],
        ) by {
            assert(before[i] == picks[i]);
        }
        an_end_token_ends_the_generation(prompt, max_seq_len, max_new, before, k, eos, im_end);
        assert(before.take(k) =~= picks.take(k));
    } else {
        assert(no_end_token(before, eos, im_end)) by {
            assert forall|i: int| 0 <= i < before.len() implies #[trigger] before[i] != eos
                && im_end != Some(before[i]) by {
                assert(before[i] == picks[i]);
            }
        }
        lemma_run_spends_the_budget(prompt, max_seq_len, max_new, before, eos, im_end);
        assert(before.take(k) =~= picks.take(k));
    }
}

/// What is reported of a text that grew at its end is what was added to it.
pub proof fn a_report_is_what_was_added(emitted: Seq<char>, added: Seq<char>)
    ensures
        report(emitted, emitted + added) == added,
{
    let full = emitted + added;
    let n = emitted.len() as int;
    assert(full.take(n) =~= emitted);
    if added.len() > 0 {
        lemma_bytes_grow_strictly(full, n, full.len() as int);
        assert(full.take(full.len() as int) =~= full);
        assert(at_byte(full, encode_utf8(emitted).len(), n));
        let k = choose|k: int| at_byte(full, encode_utf8(emitted).len(), k);
        if k < n {
            lemma_bytes_grow_strictly(full, k, n);
        }
        if n < k {
            lemma_bytes_grow_strictly(full, n, k);
        }
        assert(full.skip(n) =~= added);
    } else {
        assert(full =~= emitted);
        assert(added =~= Seq::<char>::empty());
    }
}

/// A generation may pick as many tokens as it is asked for, or as fit behind the
/// prompt, whichever is less; behind a prompt that fills the context, none.
pub proof fn a_budget_is_what_fits(prompt: nat, max_seq_len: nat, max_new: nat)
    ensures
        token_budget(prompt, max_seq_len, max_new) <= max_new,
        prompt <= max_seq_len ==> prompt + token_budget(prompt, max_seq_len, max_new)
            <= max_seq_len,
        prompt + max_new <= max_seq_len ==> token_budget(prompt, max_seq_len, max_new) == max_new
            && !bound_by_window(prompt, max_seq_len, max_new),
        prompt <= max_seq_len < prompt + max_new ==> prompt + token_budget(
            prompt,
            max_seq_len,
            max_new,
        ) == max_seq_len && bound_by_window(prompt, max_seq_len, max_new),
        max_seq_len <= prompt ==> token_budget(prompt, max_seq_len, max_new) == 0,
{
}

/// A generation goes on exactly as long as the token picked is no end token, the
/// context has room for the token and the budget is not spent. What is picked
/// is kept unless it ends the generation, and what stops it is told: an end
/// token first, then a full context, then the budget, which stands for a full
/// context where the context set it.
pub proof fn what_stops_a_generation(
    s: GenerationState,
    next: u32,
    eos: u32,
    im_end: Option<u32>,
    pos: nat,
    max_seq_len: nat,
)
    requires
        s.stop is None,
        s.left > 0,
    ensures
        ({
            let kept = token_step(s, next, eos, im_end);
            let after = room_step(kept, pos, max_seq_len);
            &&& next == eos ==> after.stop == Some(StopReason::Eos) && after.tokens == s.tokens
                && after.left == s.left
            &&& next != eos && im_end == Some(next) ==> after.stop == Some(StopReason::ImEnd)
                && after.tokens == s.tokens && after.left == s.left
            &&& next != eos && im_end != Some(next) ==> {
                &&& kept.stop is None
                &&& after.tokens == s.tokens.push(next)
                &&& after.left + 1 == s.left
                &&& max_seq_len <= pos ==> after.stop == Some(StopReason::MaxSeqLen)
                &&& pos < max_seq_len && s.left == 1 ==> after.stop == Some(
                    if s.window_bound {
                        StopReason::MaxSeqLen
                    } else {
                        StopReason::MaxTokens
                    },
                )
                &&& pos < max_seq_len && s.left > 1 ==> after.stop is None
            }
            &&& after.window_bound == s.window_bound
        }),
{
}

} // verus!
