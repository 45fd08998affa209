//! A tool call, from a query and its tools to the text that is returned.
//!
//! The encoder and the decoder run elsewhere. What is decided here is what
//! they are given and what is made of their answers: the encoder's input, the
//! token picked at each step and when to stop, and the text at the end.

use vstd::prelude::*;
use vstd::utf8::encode_utf8;
use crate::config::{ConfigError, TransformerConfig};
use crate::constrained::{
    any_fits,
    bias,
    bytes_of_token,
    fresh_machine,
    id_fits,
    key_set,
    keys_for,
    run,
    token_fits,
    tool_names,
    ConstrainedDecoder,
    ToolDef,
};
use crate::declarations::holds;
use crate::floats::{argmax_total, total};
use crate::prompt::{
    are_lexemes,
    compacted,
    compacting_keeps_the_lexemes,
    strip_outside_strings,
    text_written,
    without_spaces,
    written,
    Lexeme,
};
use crate::rename::{
    every_name_is_turned,
    is_naming,
    named_text,
    names_are_apart,
    normalize_tools_json,
    renamed,
    renames,
    renames_follow_the_declaration,
    renaming_keeps_the_start,
    restore_tool_names,
    retold,
    snake_case_tools_rename_nothing,
    turns_into,
    Naming,
};
use crate::safetensors::SafeTensorsError;
use crate::text::{
    chars_of,
    decimal,
    decimal_reads_back,
    decimals_are_digits,
    part_of,
    push_decimal,
    push_str,
    stands_at,
    starts_at,
    text_of,
};
use crate::tokenizer::{
    decoded,
    encoded,
    token_text,
    Vocabulary,
    EOS_ID,
    TOOLS_ID,
    TOOL_CALL_ID,
};
use crate::tools::{are_tools, is_tool, tools_from, views, ToolSpec};

verus! {

/// What a run gives back.
#[derive(Debug, Clone)]
pub struct InferenceResult {
    pub token_ids: Vec<u32>,
    pub text: String,
}

/// JSON without the white space outside its strings, as the encoder reads it.
pub fn compact_json(s: &str) -> (out: String)
    ensures
        out@ == compacted(s@, true),
{
    let chars = chars_of(s);
    text_of(&strip_outside_strings(&chars, true))
}

/// The lesser of two numbers.
pub open spec fn least(a: nat, b: nat) -> nat {
    if a <= b {
        a
    } else {
        b
    }
}

/// How much of the query the encoder sees: two places are kept for the
/// separator and at least one token of the tools.
pub open spec fn query_share(query: nat, max_enc: nat) -> nat {
    least(
        query,
        if max_enc >= 2 {
            (max_enc - 2) as nat
        } else {
            0
        },
    )
}

/// How much of the tools it sees: what is left.
pub open spec fn tools_share(query: nat, tools: nat, max_enc: nat) -> nat {
    let used = query_share(query, max_enc) + 1;
    least(
        tools,
        if max_enc >= used {
            (max_enc - used) as nat
        } else {
            0
        },
    )
}

/// The encoder's input: the query, the separator, the tools.
pub open spec fn encoder_tokens(query: Seq<u32>, tools: Seq<u32>, max_enc: nat) -> Seq<u32> {
    query.take(query_share(query.len(), max_enc) as int) + seq![TOOLS_ID] + tools.take(
        tools_share(query.len(), tools.len(), max_enc) as int,
    )
}

/// Nothing to encode: no token at all, or no room for any.
pub open spec fn nothing_to_encode(query: Seq<u32>, tools: Seq<u32>, max_enc: nat) -> bool {
    (query.len() == 0 && tools.len() == 0) || max_enc == 0
}

/// How much of the query and of the tools fits in the encoder.
pub fn encoder_shares(query_len: usize, tools_len: usize, max_enc: usize) -> (shares: (usize, usize))
    ensures
        shares.0 == query_share(query_len as nat, max_enc as nat),
        shares.1 == tools_share(query_len as nat, tools_len as nat, max_enc as nat),
{
    let room: usize = if max_enc >= 2 {
        max_enc - 2
    } else {
        0
    };
    let q_len: usize = if query_len <= room {
        query_len
    } else {
        room
    };
    let remaining: usize = if max_enc > q_len {
        max_enc - q_len - 1
    } else {
        0
    };
    let t_len: usize = if tools_len <= remaining {
        tools_len
    } else {
        remaining
    };
    (q_len, t_len)
}

/// Build the encoder's input; `None` where there is nothing to encode.
pub fn encoder_input(query_ids: &[u32], tools_ids: &[u32], max_enc: usize) -> (input: Option<
    Vec<u32>,
>)
    ensures
        match input {
            Some(v) => !nothing_to_encode(query_ids@, tools_ids@, max_enc as nat) && v@
                == encoder_tokens(query_ids@, tools_ids@, max_enc as nat),
            None => nothing_to_encode(query_ids@, tools_ids@, max_enc as nat),
        },
{
    if query_ids.len() == 0 && tools_ids.len() == 0 {
        return None;
    }
    if max_enc == 0 {
        return None;
    }
    let (q_len, t_len) = encoder_shares(query_ids.len(), tools_ids.len(), max_enc);
    let mut input: Vec<u32> = Vec::new();
    let mut i: usize = 0;
    while i < q_len
        invariant
            i <= q_len <= query_ids@.len(),
            input@ == query_ids@.take(i as int),
        decreases q_len - i,
    {
        input.push(query_ids[i]);
        i = i + 1;
        assert(input@ =~= query_ids@.take(i as int));
    }
    input.push(TOOLS_ID);
    let ghost head = query_ids@.take(q_len as int) + seq![TOOLS_ID];
    assert(input@ =~= head + tools_ids@.take(0));
    let mut j: usize = 0;
    while j < t_len
        invariant
            j <= t_len <= tools_ids@.len(),
            input@ == head + tools_ids@.take(j as int),
        decreases t_len - j,
    {
        input.push(tools_ids[j]);
        j = j + 1;
        assert(input@ =~= head + tools_ids@.take(j as int));
    }
    Some(input)
}

/// The encoder's input fits the encoder, names the separator once the query
/// ends, and keeps a token of the tools wherever there is one and room for
/// two.
pub proof fn encoder_input_fits(query: Seq<u32>, tools: Seq<u32>, max_enc: nat)
    requires
        max_enc > 0,
    ensures
        encoder_tokens(query, tools, max_enc).len() <= max_enc,
        encoder_tokens(query, tools, max_enc)[query_share(query.len(), max_enc) as int] == TOOLS_ID,
        max_enc >= 2 && tools.len() > 0 ==> tools_share(query.len(), tools.len(), max_enc) > 0,
        query.len() + 1 + tools.len() <= max_enc && query.len() + 2 <= max_enc ==> encoder_tokens(
            query,
            tools,
            max_enc,
        ) == query + seq![TOOLS_ID] + tools,
{
    if query.len() + 1 + tools.len() <= max_enc && query.len() + 2 <= max_enc {
        assert(query.take(query.len() as int) =~= query);
        assert(tools.take(tools.len() as int) =~= tools);
    }
}

/// A request, ready to run.
pub struct Prepared {
    /// The tools that the caller declared.
    pub tool_defs: Vec<ToolDef>,
    /// What the encoder reads.
    pub enc_input: Vec<u32>,
}

/// The tools as the encoder reads them: snake-case names, no white space.
pub open spec fn tools_text(tools_json: Seq<char>, tools: Seq<ToolDef>) -> Seq<char> {
    compacted(renamed(tools_json, renames(tools, false)), true)
}

/// Read a request. `None` where there is nothing to encode: the answer is then
/// empty.
pub fn prepare(vocab: &Vocabulary, query: &str, tools_json: &str, max_enc: usize) -> (request:
    Option<Prepared>)
    requires
        vocab.wf(),
    ensures
        match request {
            Some(r) => {
                let q = encoded(vocab.pieces(), vocab.scores(), query@);
                let t = encoded(
                    vocab.pieces(),
                    vocab.scores(),
                    tools_text(tools_json@, r.tool_defs@),
                );
                &&& are_tools(r.tool_defs@, tools_from(tools_json@, 0))
                &&& !nothing_to_encode(q, t, max_enc as nat)
                &&& r.enc_input@ == encoder_tokens(q, t, max_enc as nat)
            },
            None => forall|tools: Seq<ToolDef>| #[trigger]
                are_tools(tools, tools_from(tools_json@, 0)) ==> nothing_to_encode(
                    encoded(vocab.pieces(), vocab.scores(), query@),
                    encoded(vocab.pieces(), vocab.scores(), tools_text(tools_json@, tools)),
                    max_enc as nat,
                ),
        },
{
    let tool_defs = ToolDef::from_json(tools_json);
    let normalized = normalize_tools_json(tools_json, &tool_defs);
    let compact = compact_json(normalized.as_str());
    let query_ids = vocab.encode(query);
    let tools_ids = vocab.encode(compact.as_str());
    match encoder_input(&query_ids, &tools_ids, max_enc) {
        Some(enc_input) => Some(Prepared { tool_defs, enc_input }),
        None => {
            proof {
                let declared = tools_from(tools_json@, 0);
                assert forall|tools: Seq<ToolDef>| #[trigger]
                    are_tools(tools, declared) implies tools_text(tools_json@, tools) == compact@ by {
                    renames_follow_the_declaration(tools, tool_defs@, declared, false);
                }
            }
            None
        },
    }
}

/// What a run has picked so far.
pub struct Progress {
    pub ids: Seq<u32>,
    pub left: nat,
    pub ended: bool,
}

/// A run that has picked nothing and may pick `budget` tokens.
pub open spec fn fresh_progress(budget: nat) -> Progress {
    Progress { ids: Seq::empty(), left: budget, ended: false }
}

/// A run still wants a token.
pub open spec fn wants_token(p: Progress) -> bool {
    !p.ended && p.left > 0
}

/// One token picked. The end token ends the run and is not kept.
pub open spec fn progress_step(p: Progress, token: u32) -> Progress {
    if !wants_token(p) {
        p
    } else if token == EOS_ID {
        Progress { ended: true, ..p }
    } else {
        Progress { ids: p.ids.push(token), left: (p.left - 1) as nat, ..p }
    }
}

/// Tokens picked one after another.
pub open spec fn progress_run(p: Progress, tokens: Seq<u32>) -> Progress
    decreases tokens.len(),
{
    if tokens.len() == 0 {
        p
    } else {
        progress_step(progress_run(p, tokens.drop_last()), tokens.last())
    }
}

/// Tokens up to the first end token.
pub open spec fn until_end(tokens: Seq<u32>) -> Seq<u32>
    decreases tokens.len(),
{
    if tokens.len() == 0 || tokens[0] == EOS_ID {
        Seq::empty()
    } else {
        seq![tokens[0]] + until_end(tokens.skip(1))
    }
}

/// A run keeps what was picked before the first end token, and never more
/// than its budget.
pub proof fn a_run_keeps_what_comes_before_the_end(budget: nat, tokens: Seq<u32>)
    ensures
        ({
            let p = progress_run(fresh_progress(budget), tokens);
            let kept = until_end(tokens);
            &&& p.ids == kept.take(least(kept.len(), budget) as int)
            &&& p.left == budget - p.ids.len()
            &&& p.ended == (kept.len() < tokens.len() && kept.len() < budget)
        }),
    decreases tokens.len(),
{
    lemma_until_end(tokens);
    if tokens.len() > 0 {
        let before = tokens.drop_last();
        let t = tokens.last();
        a_run_keeps_what_comes_before_the_end(budget, before);
        lemma_until_end(before);
        lemma_until_end_push(before, t);
        assert(before.push(t) =~= tokens);
        let kept = until_end(tokens);
        let was = until_end(before);
        let p = progress_run(fresh_progress(budget), before);
        let q = progress_run(fresh_progress(budget), tokens);
        if was.len() == before.len() && t != EOS_ID {
            if was.len() < budget {
                assert(was.take(was.len() as int) =~= was);
                assert(q.ids =~= kept.take(kept.len() as int));
            } else {
                assert(kept.take(budget as int) =~= was.take(budget as int));
            }
        }
    } else {
        assert(Seq::<u32>::empty().take(0) =~= Seq::<u32>::empty());
        assert(until_end(tokens) =~= Seq::<u32>::empty());
    }
}

proof fn lemma_until_end(tokens: Seq<u32>)
    ensures
        until_end(tokens).len() <= tokens.len(),
        until_end(tokens) == tokens.take(until_end(tokens).len() as int),
        forall|i: int| 0 <= i < until_end(tokens).len() ==> tokens[i] != EOS_ID,
    decreases tokens.len(),
{
    if tokens.len() > 0 && tokens[0] != EOS_ID {
        let rest = tokens.skip(1);
        lemma_until_end(rest);
        let n = until_end(rest).len() as int;
        assert(seq![tokens[0]] + rest.take(n) =~= tokens.take(n + 1));
        assert forall|i: int| 0 <= i < n + 1 implies tokens[i] != EOS_ID by {
            if i > 0 {
                assert(rest[i - 1] == tokens[i]);
            }
        }
    } else {
        assert(tokens.take(0) =~= Seq::<u32>::empty());
    }
}

proof fn lemma_until_end_push(tokens: Seq<u32>, t: u32)
    ensures
        until_end(tokens.push(t)) == (if until_end(tokens).len() == tokens.len() && t != EOS_ID {
            until_end(tokens).push(t)
        } else {
            until_end(tokens)
        }),
    decreases tokens.len(),
{
    let all = tokens.push(t);
    if tokens.len() == 0 {
        assert(all.skip(1) =~= Seq::<u32>::empty());
        assert(until_end(all.skip(1)) =~= Seq::<u32>::empty());
        assert(until_end(tokens) =~= Seq::<u32>::empty());
        assert(until_end(all) =~= if t != EOS_ID {
            seq![t]
        } else {
            Seq::empty()
        });
        assert(until_end(tokens).push(t) =~= seq![t]);
    } else {
        assert(all[0] == tokens[0]);
        if tokens[0] != EOS_ID {
            lemma_until_end_push(tokens.skip(1), t);
            assert(all.skip(1) =~= tokens.skip(1).push(t));
            assert(seq![tokens[0]] + until_end(tokens.skip(1)).push(t) =~= (seq![tokens[0]]
                + until_end(tokens.skip(1))).push(t));
        }
    }
}

/// The token that a step picks from the biased scores: the last of the
/// highest; the end token where there are no scores.
pub open spec fn is_pick(scores: Seq<u32>, token: u32) -> bool {
    if scores.len() == 0 {
        token == EOS_ID
    } else {
        token < scores.len() && forall|i: int|
            0 <= i < scores.len() ==> total(#[trigger] scores[i]) <= total(scores[token as int])
                && (total(scores[i]) == total(scores[token as int]) ==> i <= token)
    }
}

/// The token that a step picks.
pub open spec fn pick_of(scores: Seq<u32>) -> u32 {
    choose|token: u32| is_pick(scores, token)
}

/// Scores leave one token to pick.
pub proof fn a_pick_is_the_only_one(scores: Seq<u32>, token: u32)
    requires
        is_pick(scores, token),
    ensures
        pick_of(scores) == token,
{
    let other = pick_of(scores);
    assert(is_pick(scores, other));
    if scores.len() > 0 {
        assert(total(scores[token as int]) <= total(scores[other as int]));
        assert(total(scores[other as int]) <= total(scores[token as int]));
    }
}

/// A pick is never blocked, as long as some token is allowed and the bias puts
/// every blocked score below every allowed one.
pub proof fn a_pick_is_allowed(scores: Seq<u32>, mask: Seq<i32>, token: u32)
    requires
        scores.len() == mask.len(),
        is_pick(scores, token),
        exists|i: int| 0 <= i < mask.len() && #[trigger] mask[i] == 0,
        forall|i: int, j: int|
            #![trigger mask[i], mask[j]]
            0 <= i < mask.len() && 0 <= j < mask.len() && mask[i] != 0 && mask[j] == 0 ==> total(
                scores[i],
            ) < total(scores[j]),
    ensures
        token < mask.len(),
        mask[token as int] == 0,
{
    let a = choose|i: int| 0 <= i < mask.len() && #[trigger] mask[i] == 0;
    assert(total(scores[a]) <= total(scores[token as int]));
    if mask[token as int] != 0 {
        assert(total(scores[token as int]) < total(scores[a]));
    }
}

/// A run in progress.
pub struct Decoding {
    decoder: ConstrainedDecoder,
    token_ids: Vec<u32>,
    left: usize,
    ended: bool,
}

impl Decoding {
    /// What the run has picked.
    pub closed spec fn progress(&self) -> Progress {
        Progress { ids: self.token_ids@, left: self.left as nat, ended: self.ended }
    }

    /// What constrains the next pick.
    pub closed spec fn decoder(&self) -> ConstrainedDecoder {
        self.decoder
    }

    pub closed spec fn wf(&self) -> bool {
        self.decoder.wf()
    }

    /// The token that the decoder is fed next: the last one picked, and the
    /// end token at the start.
    pub open spec fn next_input(&self) -> u32 {
        let ids = self.progress().ids;
        if ids.len() == 0 {
            EOS_ID
        } else {
            ids.last()
        }
    }

    /// A run that has picked nothing, constrained to `tools` over the tokens
    /// of a vocabulary.
    pub open spec fn is_fresh(
        &self,
        pieces: Seq<Seq<char>>,
        tools: Seq<ToolDef>,
        budget: nat,
    ) -> bool {
        &&& self.progress() == fresh_progress(budget)
        &&& self.decoder().machine() == fresh_machine()
        &&& self.decoder().names() == tool_names(tools)
        &&& forall|f: Seq<u8>| #[trigger] self.decoder().keys(f) == keys_for(tools, f)
        &&& self.decoder().tokens().len() == pieces.len()
        &&& forall|i: int|
            0 <= i < pieces.len() ==> (#[trigger] self.decoder().tokens()[i]).0 == i
                && self.decoder().tokens()[i].1@ == encode_utf8(token_text(pieces, i as u32))
    }

    /// The bias on each token's score: what the open slot makes of it.
    pub open spec fn mask_values(&self, vocab_size: nat) -> Seq<i32> {
        Seq::new(
            vocab_size,
            |id: int|
                match self.decoder().slot() {
                    Some(set) => bias(
                        set,
                        self.decoder().machine().buf,
                        self.decoder().tokens(),
                        vocab_size,
                        id,
                    ),
                    None => 0,
                },
        )
    }

    /// A step that picks a token by the biased scores, from this state to
    /// `after`, reporting `token`.
    pub open spec fn picks(&self, scores: Seq<u32>, token: Option<u32>, after: Self) -> bool {
        let picked = pick_of(scores);
        &&& is_pick(scores, picked)
        &&& token == (if picked == EOS_ID {
            None
        } else {
            Some(picked)
        })
        &&& after.progress() == progress_step(self.progress(), picked)
        &&& after.decoder().machine() == (if picked == EOS_ID {
            self.decoder().machine()
        } else {
            run(self.decoder().machine(), bytes_of_token(self.decoder().tokens(), picked))
        })
        &&& after.decoder().names() == self.decoder().names()
        &&& forall|f: Seq<u8>| #[trigger] after.decoder().keys(f) == self.decoder().keys(f)
        &&& after.decoder().tokens() == self.decoder().tokens()
    }

    /// Start a run.
    pub fn start(vocab: &Vocabulary, tool_defs: &[ToolDef], max_gen_len: usize) -> (d: Self)
        requires
            vocab.wf(),
        ensures
            d.wf(),
            d.is_fresh(vocab.pieces(), tool_defs@, max_gen_len as nat),
    {
        let token_bytes = vocab.token_bytes();
        Decoding {
            decoder: ConstrainedDecoder::new(tool_defs, token_bytes),
            token_ids: Vec::new(),
            left: max_gen_len,
            ended: false,
        }
    }

    /// The token to feed the decoder; `None` once the run is over.
    pub fn input(&self) -> (token: Option<u32>)
        ensures
            match token {
                Some(t) => wants_token(self.progress()) && t == self.next_input(),
                None => !wants_token(self.progress()),
            },
    {
        if self.ended || self.left == 0 {
            None
        } else if self.token_ids.len() == 0 {
            Some(EOS_ID)
        } else {
            Some(self.token_ids[self.token_ids.len() - 1])
        }
    }

    /// The bias on each token's score.
    pub fn mask(&self, vocab_size: usize) -> (mask: Vec<i32>)
        requires
            self.wf(),
        ensures
            mask@ == self.mask_values(vocab_size as nat),
    {
        let mask = self.decoder.logit_mask(vocab_size);
        assert(mask@ =~= self.mask_values(vocab_size as nat));
        mask
    }

    /// Pick a token by the biased scores. `None` where the run ends with it.
    pub fn pick(&mut self, scores: &[u32]) -> (token: Option<u32>)
        requires
            old(self).wf(),
            wants_token(old(self).progress()),
            scores@.len() <= u32::MAX,
        ensures
            final(self).wf(),
            old(self).picks(scores@, token, *final(self)),
    {
        let picked: u32 = match argmax_total(scores) {
            Some(i) => i as u32,
            None => EOS_ID,
        };
        assert(is_pick(scores@, picked));
        proof {
            a_pick_is_the_only_one(scores@, picked);
        }
        if picked == EOS_ID {
            self.ended = true;
            return None;
        }
        self.token_ids.push(picked);
        self.left = self.left - 1;
        self.decoder.update(picked);
        Some(picked)
    }

    /// The answer, once the run is over.
    pub fn result(&self, vocab: &Vocabulary, tool_defs: &[ToolDef]) -> (r: InferenceResult)
        requires
            vocab.wf(),
        ensures
            r.token_ids@ == self.progress().ids,
            r.text@ == answer_text(vocab.pieces(), self.progress().ids, tool_defs@),
    {
        let text = finish_text(vocab, &self.token_ids, tool_defs);
        let mut token_ids: Vec<u32> = Vec::new();
        let mut i: usize = 0;
        while i < self.token_ids.len()
            invariant
                i <= self.token_ids@.len(),
                token_ids@ == self.token_ids@.take(i as int),
            decreases self.token_ids.len() - i,
        {
            token_ids.push(self.token_ids[i]);
            i = i + 1;
            assert(token_ids@ =~= self.token_ids@.take(i as int));
        }
        assert(self.token_ids@.take(i as int) =~= self.token_ids@);
        InferenceResult { token_ids, text }
    }
}

/// Two vocabularies give the same bytes to the same tokens, in the same order.
pub open spec fn same_tokens(a: Seq<(u32, Vec<u8>)>, b: Seq<(u32, Vec<u8>)>) -> bool {
    a.len() == b.len() && forall|i: int|
        #![trigger a[i]]
        #![trigger b[i]]
        0 <= i < a.len() ==> a[i].0 == b[i].0 && a[i].1@ == b[i].1@
}

/// Two runs are at the same point: they have picked the same, and the same
/// constrains what comes next.
pub open spec fn alike(a: Decoding, b: Decoding) -> bool {
    &&& a.progress() == b.progress()
    &&& a.decoder().machine() == b.decoder().machine()
    &&& a.decoder().names() == b.decoder().names()
    &&& forall|f: Seq<u8>| #[trigger] a.decoder().keys(f) == b.decoder().keys(f)
    &&& same_tokens(a.decoder().tokens(), b.decoder().tokens())
}

/// A run from its start to its end over a model: `states` are its states,
/// `reports` what its steps reported, and `model` gives the biased scores of a
/// step by the tokens picked before it and the bias.
pub open spec fn is_run(
    states: Seq<Decoding>,
    reports: Seq<Option<u32>>,
    model: spec_fn(Seq<u32>, Seq<i32>) -> Seq<u32>,
    vocab_size: nat,
) -> bool {
    &&& states.len() == reports.len() + 1
    &&& !wants_token(states.last().progress())
    &&& forall|i: int|
        #![trigger reports[i]]
        0 <= i < reports.len() ==> wants_token(states[i].progress()) && states[i].picks(
            model(states[i].progress().ids, states[i].mask_values(vocab_size)),
            reports[i],
            states[i + 1],
        )
}

/// The tokens that a run reported, in the order of the reports.
pub open spec fn reported(reports: Seq<Option<u32>>) -> Seq<u32>
    decreases reports.len(),
{
    if reports.len() == 0 {
        Seq::empty()
    } else {
        match reports.last() {
            Some(token) => reported(reports.drop_last()).push(token),
            None => reported(reports.drop_last()),
        }
    }
}

proof fn lemma_same_bytes(a: Seq<(u32, Vec<u8>)>, b: Seq<(u32, Vec<u8>)>, id: u32)
    requires
        same_tokens(a, b),
    ensures
        bytes_of_token(a, id) == bytes_of_token(b, id),
    decreases a.len(),
{
    if a.len() > 0 {
        assert(a[0].0 == b[0].0 && a[0].1@ == b[0].1@);
        if a[0].0 != id {
            assert forall|i: int| 0 <= i < a.skip(1).len() implies (#[trigger] a.skip(1)[i]).0
                == b.skip(1)[i].0 && a.skip(1)[i].1@ == b.skip(1)[i].1@ by {
                assert(a[i + 1].0 == b[i + 1].0);
            }
            assert(same_tokens(a.skip(1), b.skip(1)));
            lemma_same_bytes(a.skip(1), b.skip(1), id);
        }
    }
}

proof fn lemma_same_fits(
    set: Set<Seq<u8>>,
    w: Seq<u8>,
    a: Seq<(u32, Vec<u8>)>,
    b: Seq<(u32, Vec<u8>)>,
    vocab_size: nat,
    id: int,
)
    requires
        same_tokens(a, b),
    ensures
        any_fits(set, w, a, vocab_size) ==> any_fits(set, w, b, vocab_size),
        id_fits(set, w, a, id) ==> id_fits(set, w, b, id),
{
    if any_fits(set, w, a, vocab_size) {
        let k = choose|k: int|
            0 <= k < a.len() && (#[trigger] a[k]).0 < vocab_size && token_fits(set, w, a[k].1@);
        assert(b[k].0 == a[k].0);
    }
    if id_fits(set, w, a, id) {
        let k = choose|k: int|
            0 <= k < a.len() && (#[trigger] a[k]).0 == id && token_fits(set, w, a[k].1@);
        assert(b[k].0 == a[k].0);
    }
}

/// Runs at the same point bias the scores in the same way.
pub proof fn alike_runs_have_the_same_mask(a: Decoding, b: Decoding, vocab_size: nat)
    requires
        alike(a, b),
    ensures
        a.mask_values(vocab_size) == b.mask_values(vocab_size),
{
    let (x, y) = (a.decoder().tokens(), b.decoder().tokens());
    assert(a.decoder().keys(a.decoder().machine().function) == b.decoder().keys(
        b.decoder().machine().function,
    ));
    assert(a.decoder().slot() == b.decoder().slot());
    assert(same_tokens(y, x));
    assert forall|id: int| 0 <= id < vocab_size implies #[trigger] a.mask_values(vocab_size)[id]
        == b.mask_values(vocab_size)[id] by {
        if let Some(set) = a.decoder().slot() {
            let w = a.decoder().machine().buf;
            lemma_same_fits(set, w, x, y, vocab_size, id);
            lemma_same_fits(set, w, y, x, vocab_size, id);
        }
    }
    assert(a.mask_values(vocab_size) =~= b.mask_values(vocab_size));
}

proof fn lemma_runs_keep_up(
    a: Seq<Decoding>,
    a_reports: Seq<Option<u32>>,
    b: Seq<Decoding>,
    b_reports: Seq<Option<u32>>,
    model: spec_fn(Seq<u32>, Seq<i32>) -> Seq<u32>,
    vocab_size: nat,
    n: int,
)
    requires
        is_run(a, a_reports, model, vocab_size),
        is_run(b, b_reports, model, vocab_size),
        alike(a[0], b[0]),
        0 <= n < a.len(),
        n < b.len(),
    ensures
        alike(a[n], b[n]),
        forall|i: int| 0 <= i < n ==> #[trigger] a_reports[i] == b_reports[i],
    decreases n,
{
    if n > 0 {
        lemma_runs_keep_up(a, a_reports, b, b_reports, model, vocab_size, n - 1);
        let i = n - 1;
        let scores = model(a[i].progress().ids, a[i].mask_values(vocab_size));
        alike_runs_have_the_same_mask(a[i], b[i], vocab_size);
        assert(a_reports[i] == a_reports[i] && b_reports[i] == b_reports[i]);
        assert(a[i].picks(scores, a_reports[i], a[n]));
        assert(b[i].picks(scores, b_reports[i], b[n]));
        lemma_same_bytes(a[i].decoder().tokens(), b[i].decoder().tokens(), pick_of(scores));
        assert forall|f: Seq<u8>| #[trigger]
            a[n].decoder().keys(f) == b[n].decoder().keys(f) by {
            assert(a[i].decoder().keys(f) == b[i].decoder().keys(f));
        }
    }
}

/// Two runs of one model that start alike report the same tokens and end with
/// the same tokens.
pub proof fn runs_that_start_alike_end_alike(
    a: Seq<Decoding>,
    a_reports: Seq<Option<u32>>,
    b: Seq<Decoding>,
    b_reports: Seq<Option<u32>>,
    model: spec_fn(Seq<u32>, Seq<i32>) -> Seq<u32>,
    vocab_size: nat,
)
    requires
        is_run(a, a_reports, model, vocab_size),
        is_run(b, b_reports, model, vocab_size),
        alike(a[0], b[0]),
    ensures
        a_reports == b_reports,
        a.last().progress() == b.last().progress(),
{
    let n = if a.len() <= b.len() {
        a.len() - 1
    } else {
        b.len() - 1
    };
    lemma_runs_keep_up(a, a_reports, b, b_reports, model, vocab_size, n);
    if a.len() < b.len() {
        assert(b_reports[n] == b_reports[n]);
    }
    if b.len() < a.len() {
        assert(a_reports[n] == a_reports[n]);
    }
    assert(a_reports =~= b_reports);
}

proof fn lemma_same_keys(a: Seq<String>, b: Seq<String>)
    requires
        views(a) == views(b),
    ensures
        key_set(a) == key_set(b),
    decreases a.len(),
{
    assert(views(a).len() == a.len() && views(b).len() == b.len());
    if a.len() > 0 {
        assert(views(a).last() == a.last()@ && views(b).last() == b.last()@);
        assert(views(a.drop_last()) =~= views(a).drop_last());
        assert(views(b.drop_last()) =~= views(b).drop_last());
        lemma_same_keys(a.drop_last(), b.drop_last());
    }
}

/// What constrains a run depends only on what the tools declare.
pub proof fn constraints_follow_the_declaration(
    a: Seq<ToolDef>,
    b: Seq<ToolDef>,
    declared: Seq<ToolSpec>,
    function: Seq<u8>,
)
    requires
        are_tools(a, declared),
        are_tools(b, declared),
    ensures
        tool_names(a) == tool_names(b),
        keys_for(a, function) == keys_for(b, function),
    decreases a.len(),
{
    if a.len() > 0 {
        let n = a.len() - 1;
        let shorter = declared.drop_last();
        assert(is_tool(a[n], declared[n]));
        assert(is_tool(b[n], declared[n]));
        assert forall|i: int| 0 <= i < n implies is_tool(#[trigger] a.drop_last()[i], shorter[i]) by {
            assert(is_tool(a[i], declared[i]));
        }
        assert forall|i: int| 0 <= i < n implies is_tool(#[trigger] b.drop_last()[i], shorter[i]) by {
            assert(is_tool(b[i], declared[i]));
        }
        constraints_follow_the_declaration(a.drop_last(), b.drop_last(), shorter, function);
        lemma_same_keys(a[n].param_keys@, b[n].param_keys@);
    }
}

/// A request is answered the same however often it is run, and whether or not
/// anyone listens: the tokens, what is reported and the text are those of any
/// other run of it over the same model. Each token that is kept is reported
/// once, in order.
pub proof fn a_request_has_one_answer(
    a: Seq<Decoding>,
    a_reports: Seq<Option<u32>>,
    a_tools: Seq<ToolDef>,
    b: Seq<Decoding>,
    b_reports: Seq<Option<u32>>,
    b_tools: Seq<ToolDef>,
    declared: Seq<ToolSpec>,
    pieces: Seq<Seq<char>>,
    budget: nat,
    model: spec_fn(Seq<u32>, Seq<i32>) -> Seq<u32>,
    vocab_size: nat,
)
    requires
        are_tools(a_tools, declared),
        are_tools(b_tools, declared),
        is_run(a, a_reports, model, vocab_size),
        is_run(b, b_reports, model, vocab_size),
        a[0].is_fresh(pieces, a_tools, budget),
        b[0].is_fresh(pieces, b_tools, budget),
    ensures
        a.last().progress().ids == b.last().progress().ids,
        a_reports == b_reports,
        reported(a_reports) == a.last().progress().ids,
        answer_text(pieces, a.last().progress().ids, a_tools) == answer_text(
            pieces,
            b.last().progress().ids,
            b_tools,
        ),
{
    assert forall|f: Seq<u8>| #[trigger]
        a[0].decoder().keys(f) == b[0].decoder().keys(f) by {
        constraints_follow_the_declaration(a_tools, b_tools, declared, f);
    }
    constraints_follow_the_declaration(a_tools, b_tools, declared, Seq::empty());
    assert(alike(a[0], b[0]));
    runs_that_start_alike_end_alike(a, a_reports, b, b_reports, model, vocab_size);
    every_kept_token_is_reported(a, a_reports, model, vocab_size);
    renames_follow_the_declaration(a_tools, b_tools, declared, true);
}

/// A run reports each token that it keeps once, in order, and no other: what
/// it reported is what it ends with. Only its last report can be that it
/// ended.
pub proof fn every_kept_token_is_reported(
    states: Seq<Decoding>,
    reports: Seq<Option<u32>>,
    model: spec_fn(Seq<u32>, Seq<i32>) -> Seq<u32>,
    vocab_size: nat,
)
    requires
        is_run(states, reports, model, vocab_size),
        states[0].progress().ids.len() == 0,
    ensures
        reported(reports) == states.last().progress().ids,
        forall|i: int| 0 <= i < reports.len() - 1 ==> #[trigger] reports[i] is Some,
{
    lemma_reported(states, reports, model, vocab_size, reports.len());
    assert(reports.take(reports.len() as int) =~= reports);
    assert forall|i: int| 0 <= i < reports.len() - 1 implies #[trigger] reports[i] is Some by {
        assert(reports[i + 1] == reports[i + 1]);
        assert(wants_token(states[i + 1].progress()));
    }
}

proof fn lemma_reported(
    states: Seq<Decoding>,
    reports: Seq<Option<u32>>,
    model: spec_fn(Seq<u32>, Seq<i32>) -> Seq<u32>,
    vocab_size: nat,
    n: nat,
)
    requires
        is_run(states, reports, model, vocab_size),
        states[0].progress().ids.len() == 0,
        n <= reports.len(),
    ensures
        reported(reports.take(n as int)) == states[n as int].progress().ids,
    decreases n,
{
    if n > 0 {
        lemma_reported(states, reports, model, vocab_size, (n - 1) as nat);
        let so_far = reports.take(n as int);
        assert(so_far.drop_last() =~= reports.take(n - 1));
        assert(so_far.last() == reports[n - 1]);
    } else {
        assert(reported(reports.take(0)) =~= states[0].progress().ids);
    }
}

/// Text without a prefix that it may start with.
pub open spec fn without_prefix(s: Seq<char>, prefix: Seq<char>) -> Seq<char> {
    if stands_at(s, 0, prefix) {
        s.skip(prefix.len() as int)
    } else {
        s
    }
}

/// The answer that a run's tokens stand for: decoded, without the call marker
/// at its start, and with the names that the caller declared.
pub open spec fn answer_text(pieces: Seq<Seq<char>>, ids: Seq<u32>, tools: Seq<ToolDef>) -> Seq<
    char,
> {
    renamed(
        without_prefix(decoded(pieces, ids), token_text(pieces, TOOL_CALL_ID)),
        renames(tools, true),
    )
}

/// The call marker at the start of what was decoded is taken off, and the
/// answer does not start with it, unless the marker stood there twice.
pub proof fn an_answer_starts_after_the_marker(
    pieces: Seq<Seq<char>>,
    ids: Seq<u32>,
    tools: Seq<ToolDef>,
)
    requires
        ({
            let marker = token_text(pieces, TOOL_CALL_ID);
            &&& marker.len() > 0
            &&& forall|k: int| 0 <= k < marker.len() ==> #[trigger] marker[k] != '"'
            &&& !stands_at(decoded(pieces, ids), 0, marker + marker)
        }),
    ensures
        !stands_at(answer_text(pieces, ids, tools), 0, token_text(pieces, TOOL_CALL_ID)),
{
    let marker = token_text(pieces, TOOL_CALL_ID);
    let raw = decoded(pieces, ids);
    let text = without_prefix(raw, marker);
    let n = marker.len() as int;
    if stands_at(answer_text(pieces, ids, tools), 0, marker) {
        renaming_keeps_the_start(text, renames(tools, true), marker);
        assert(text.subrange(0, n) == marker);
        if stands_at(raw, 0, marker) {
            assert(raw.subrange(0, n) == marker);
            assert(raw.subrange(0, n + n) =~= raw.subrange(0, n) + raw.skip(n).subrange(0, n));
        }
    }
}

/// The answer that a run's tokens stand for.
pub fn finish_text(vocab: &Vocabulary, ids: &[u32], tool_defs: &[ToolDef]) -> (text: String)
    requires
        vocab.wf(),
    ensures
        text@ == answer_text(vocab.pieces(), ids@, tool_defs@),
{
    let raw = chars_of(vocab.decode_ids(ids).as_str());
    let marker = chars_of(vocab.piece_text(TOOL_CALL_ID).as_str());
    let total: usize = raw.len();
    let stripped = if starts_at(&raw, 0, &marker) {
        part_of(&raw, marker.len(), total)
    } else {
        part_of(&raw, 0, total)
    };
    proof {
        let prefix = token_text(vocab.pieces(), TOOL_CALL_ID);
        assert(stripped@ =~= without_prefix(raw@, prefix));
    }
    restore_tool_names(text_of(&stripped).as_str(), tool_defs)
}

/// The name of a tensor of encoder layer `i`.
pub open spec fn encoder_tensor_name(i: nat, field: Seq<char>) -> Seq<char> {
    "encoder."@ + decimal(i) + "."@ + field
}

/// The name of a tensor of decoder layer `i`.
pub open spec fn decoder_tensor_name(i: nat, field: Seq<char>) -> Seq<char> {
    "decoder."@ + decimal(i) + "."@ + field
}

fn layer_tensor(side: &str, i: usize, field: &str) -> (name: String)
    ensures
        name@ == side@ + decimal(i as nat) + "."@ + field@,
{
    let mut out: Vec<char> = Vec::new();
    push_str(&mut out, side);
    push_decimal(&mut out, i);
    push_str(&mut out, ".");
    push_str(&mut out, field);
    assert(out@ =~= side@ + decimal(i as nat) + "."@ + field@);
    text_of(&out)
}

/// The name of a tensor of encoder layer `i`.
pub fn encoder_tensor(i: usize, field: &str) -> (name: String)
    ensures
        name@ == encoder_tensor_name(i as nat, field@),
{
    layer_tensor("encoder.", i, field)
}

/// The name of a tensor of decoder layer `i`.
pub fn decoder_tensor(i: usize, field: &str) -> (name: String)
    ensures
        name@ == decoder_tensor_name(i as nat, field@),
{
    layer_tensor("decoder.", i, field)
}

/// Why a model cannot be loaded.
#[derive(Debug, Clone, PartialEq, Eq)]
pub enum LoadError {
    File(SafeTensorsError),
    Config(ConfigError),
    MissingEmbedding,
    EmbeddingSize { got: usize, expected: usize },
}

impl LoadError {
    pub open spec fn text(&self) -> Seq<char> {
        match self {
            LoadError::File(e) => e.text(),
            LoadError::Config(e) => e.text(),
            LoadError::MissingEmbedding => "missing embedding tensor"@,
            LoadError::EmbeddingSize { got, expected } => "embedding size mismatch: got "@
                + decimal(*got as nat) + ", expected "@ + decimal(*expected as nat),
        }
    }

    /// The error in words.
    pub fn message(&self) -> (s: String)
        ensures
            s@ == self.text(),
    {
        match self {
            LoadError::File(e) => e.message(),
            LoadError::Config(e) => e.message(),
            LoadError::MissingEmbedding => {
                let mut out: Vec<char> = Vec::new();
                push_str(&mut out, "missing embedding tensor");
                assert(out@ =~= self.text());
                text_of(&out)
            },
            LoadError::EmbeddingSize { got, expected } => {
                let mut out: Vec<char> = Vec::new();
                push_str(&mut out, "embedding size mismatch: got ");
                push_decimal(&mut out, *got);
                push_str(&mut out, ", expected ");
                push_decimal(&mut out, *expected);
                assert(out@ =~= self.text());
                text_of(&out)
            },
        }
    }
}

/// Why a file's tensors do not make a model, if they do not. `embedding` is
/// the number of values of the embedding tensor, where there is one.
pub open spec fn load_fault(cfg: TransformerConfig, embedding: Option<usize>) -> Option<LoadError> {
    match cfg.fault() {
        Some(e) => Some(LoadError::Config(e)),
        None => match embedding {
            None => Some(LoadError::MissingEmbedding),
            Some(got) => if got != cfg.vocab_size * cfg.d_model {
                Some(
                    LoadError::EmbeddingSize {
                        got,
                        expected: (cfg.vocab_size * cfg.d_model) as usize,
                    },
                )
            } else {
                None
            },
        },
    }
}

/// Check a model before it is built: first its configuration, then its
/// embedding.
pub fn check_model(cfg: &TransformerConfig, embedding: Option<usize>) -> (r: Result<(), LoadError>)
    requires
        cfg.vocab_size * cfg.d_model <= usize::MAX,
    ensures
        match r {
            Ok(_) => load_fault(*cfg, embedding) is None,
            Err(e) => load_fault(*cfg, embedding) == Some(e),
        },
{
    match cfg.validate() {
        Err(e) => Err(LoadError::Config(e)),
        Ok(_) => match embedding {
            None => Err(LoadError::MissingEmbedding),
            Some(got) => {
                let expected: usize = cfg.vocab_size * cfg.d_model;
                if got != expected {
                    Err(LoadError::EmbeddingSize { got, expected })
                } else {
                    Ok(())
                }
            },
        },
    }
}

/// The groups that a stored matrix's scales make, a scale to a column; `None`
/// where there are no columns or the scales do not come out even, and the
/// matrix is quantised anew.
pub fn packed_groups(scales: usize, out_feat: usize) -> (groups: Option<usize>)
    ensures
        match groups {
            Some(n) => out_feat > 0 && scales % out_feat == 0 && n == scales / out_feat,
            None => out_feat == 0 || scales % out_feat != 0,
        },
{
    if out_feat == 0 || scales % out_feat != 0 {
        None
    } else {
        Some(scales / out_feat)
    }
}

/// The width of the contrastive embedding that a head's tensors give, by
/// their sizes; `None` where they do not fit together.
pub open spec fn contrastive_width(
    hidden_kernel: nat,
    hidden_bias: nat,
    proj_kernel: nat,
    d_model: nat,
) -> Option<nat> {
    if hidden_bias == 0 || hidden_kernel != d_model * hidden_bias || proj_kernel % hidden_bias != 0 {
        None
    } else {
        Some(proj_kernel / hidden_bias)
    }
}

/// The width of the contrastive embedding that a head's tensors give.
pub fn contrastive_dim(
    hidden_kernel: usize,
    hidden_bias: usize,
    proj_kernel: usize,
    d_model: usize,
) -> (dim: Option<usize>)
    ensures
        match dim {
            Some(n) => contrastive_width(
                hidden_kernel as nat,
                hidden_bias as nat,
                proj_kernel as nat,
                d_model as nat,
            ) == Some(n as nat),
            None => contrastive_width(
                hidden_kernel as nat,
                hidden_bias as nat,
                proj_kernel as nat,
                d_model as nat,
            ) is None,
        },
{
    if hidden_bias == 0 {
        return None;
    }
    match d_model.checked_mul(hidden_bias) {
        Some(n) => {
            if hidden_kernel != n || proj_kernel % hidden_bias != 0 {
                None
            } else {
                Some(proj_kernel / hidden_bias)
            }
        },
        None => None,
    }
}

/// The encoder's input is the start of the query, the separator and the start
/// of the tools; what is cut is what does not fit. The query gives way only to
/// the separator and one token of the tools, and the tools to the query.
pub proof fn the_encoder_input_is_cut_to_fit(query: Seq<u32>, tools: Seq<u32>, max_enc: nat)
    requires
        max_enc >= 2,
    ensures
        ({
            let input = encoder_tokens(query, tools, max_enc);
            let q = if query.len() <= max_enc - 2 {
                query.len() as int
            } else {
                max_enc - 2
            };
            let t = if q + 1 + tools.len() <= max_enc {
                tools.len() as int
            } else {
                max_enc - q - 1
            };
            &&& input.len() == q + 1 + t
            &&& forall|i: int| 0 <= i < q ==> #[trigger] input[i] == query[i]
            &&& input[q] == 5
            &&& forall|i: int| 0 <= i < t ==> #[trigger] input[q + 1 + i] == tools[i]
        }),
{
}

/// Encoders of one token see the separator alone, and a request is encoded
/// unless it is empty or there is no encoder.
pub proof fn the_smallest_encoders(query: Seq<u32>, tools: Seq<u32>)
    ensures
        encoder_tokens(query, tools, 1) == seq![5u32],
        nothing_to_encode(query, tools, 0),
        forall|n: nat|
            n > 0 ==> (#[trigger] nothing_to_encode(query, tools, n) <==> query.len() == 0
                && tools.len() == 0),
{
    assert(encoder_tokens(query, tools, 1) =~= seq![5u32]);
}

/// A run keeps its tokens in order up to the end token, which it does not keep,
/// and nothing behind it. One that meets no end token keeps as many as it may.
pub proof fn a_run_ends_at_the_end_token(budget: nat, ids: Seq<u32>, rest: Seq<u32>)
    requires
        forall|i: int| 0 <= i < ids.len() ==> #[trigger] ids[i] != 1,
    ensures
        ids.len() < budget ==> {
            let p = progress_run(fresh_progress(budget), ids.push(1) + rest);
            p.ids == ids && p.ended && p.left == budget - ids.len()
        },
        ids.len() >= budget ==> {
            let p = progress_run(fresh_progress(budget), ids);
            p.ids == ids.take(budget as int) && !p.ended && p.left == 0
        },
{
    lemma_no_end(ids);
    a_run_keeps_what_comes_before_the_end(budget, ids);
    let end = seq![1u32];
    let all = ids.push(1) + rest;
    lemma_to_the_end(ids, end + rest);
    assert(all =~= ids + (end + rest));
    assert(until_end(end + rest) =~= Seq::<u32>::empty());
    assert(until_end(all) =~= ids);
    a_run_keeps_what_comes_before_the_end(budget, all);
    assert(ids.take(ids.len() as int) =~= ids);
}

proof fn lemma_no_end(ids: Seq<u32>)
    requires
        forall|i: int| 0 <= i < ids.len() ==> #[trigger] ids[i] != 1,
    ensures
        until_end(ids) == ids,
    decreases ids.len(),
{
    lemma_to_the_end(ids, Seq::empty());
    assert(ids + Seq::<u32>::empty() =~= ids);
    assert(until_end(Seq::<u32>::empty()) =~= Seq::<u32>::empty());
}

proof fn lemma_to_the_end(ids: Seq<u32>, rest: Seq<u32>)
    requires
        forall|i: int| 0 <= i < ids.len() ==> #[trigger] ids[i] != 1,
    ensures
        until_end(ids + rest) == ids + until_end(rest),
    decreases ids.len(),
{
    if ids.len() == 0 {
        assert(ids + rest =~= rest);
        assert(ids + until_end(rest) =~= until_end(rest));
    } else {
        let others = ids.skip(1);
        assert forall|i: int| 0 <= i < others.len() implies #[trigger] others[i] != 1 by {
            assert(others[i] == ids[i + 1]);
        }
        lemma_to_the_end(others, rest);
        assert(ids[0] != 1);
        assert((ids + rest).skip(1) =~= others + rest);
        assert(seq![ids[0]] + (others + until_end(rest)) =~= ids + until_end(rest));
    }
}

/// A contrastive head fits together exactly where its first layer goes from the
/// model's width to its hidden width and its second on from there; the width it
/// ends with is what makes up the second.
pub proof fn a_contrastive_head_multiplies_out(
    hidden_kernel: nat,
    hidden_bias: nat,
    proj_kernel: nat,
    d_model: nat,
    width: nat,
)
    ensures
        contrastive_width(hidden_kernel, hidden_bias, proj_kernel, d_model) == Some(width)
            <==> hidden_bias > 0 && hidden_kernel == d_model * hidden_bias && width * hidden_bias
            == proj_kernel,
{
    if hidden_bias > 0 {
        let p = proj_kernel as int;
        let b = hidden_bias as int;
        let w = width as int;
        vstd::arithmetic::div_mod::lemma_fundamental_div_mod(p, b);
        assert((p / b) * b == b * (p / b)) by (nonlinear_arith);
        if w * b == p {
            vstd::arithmetic::div_mod::lemma_div_multiples_vanish(w, b);
            vstd::arithmetic::div_mod::lemma_mod_multiples_basic(w, b);
            assert(b * w == w * b) by (nonlinear_arith);
        }
    }
}

/// Of non-negative scores a step picks one that no other exceeds, and of equal
/// ones the last.
pub proof fn a_pick_is_the_last_of_the_largest(scores: Seq<u32>, token: u32, i: int)
    requires
        is_pick(scores, token),
        0 <= i < scores.len(),
    ensures
        token < scores.len(),
        scores[i] == scores[token as int] ==> i <= token,
        scores[i] < 0x8000_0000 && scores[token as int] < 0x8000_0000 ==> scores[i]
            <= scores[token as int],
        scores[i] < 0x8000_0000 ==> scores[token as int] < 0x8000_0000,
        scores[token as int] >= 0x8000_0000 ==> scores[i] >= scores[token as int],
{
    assert(total(scores[i]) <= total(scores[token as int]));
}

/// A file makes a model exactly where its heads divide the model and its
/// embedding has a row of the model's width for every token.
pub proof fn a_file_makes_a_model_where_its_sizes_agree(
    cfg: TransformerConfig,
    embedding: Option<usize>,
)
    ensures
        load_fault(cfg, embedding) is None <==> cfg.fault() is None && embedding is Some
            && embedding->0 == cfg.vocab_size * cfg.d_model,
        load_fault(cfg, embedding) == Some(LoadError::MissingEmbedding) <==> cfg.fault() is None
            && embedding is None,
        cfg.fault() is Some ==> load_fault(cfg, embedding) == Some(
            LoadError::Config(cfg.fault()->0),
        ),
{
}

/// The encoder reads the tools with their names in snake case and without the
/// white space outside strings: tools that are in snake case already lose that
/// white space alone, and others have every name turned first.
pub proof fn the_encoder_reads_compact_tools(
    lexemes: Seq<Lexeme>,
    list: Seq<Naming>,
    names: Seq<Seq<char>>,
    tail: Seq<char>,
    tools: Seq<ToolDef>,
)
    requires
        are_lexemes(lexemes, true),
        forall|i: int| 0 <= i < list.len() ==> is_naming(#[trigger] list[i]),
        names.len() == list.len(),
        forall|i: int|
            0 <= i < list.len() ==> turns_into(
                tools,
                false,
                text_written((#[trigger] list[i]).name),
                names[i],
            ),
        forall|i: int| !#[trigger] holds(tail, i, "\"name\""@),
        names_are_apart(tools),
    ensures
        (forall|k: int|
            0 <= k < tools.len() ==> (#[trigger] tools[k]).name@ == tools[k].snake_name@)
            ==> tools_text(written(lexemes), tools) == written(without_spaces(lexemes)),
        (exists|k: int|
            0 <= k < tools.len() && (#[trigger] tools[k]).name@ != tools[k].snake_name@)
            && retold(list, names, tail) == written(lexemes) ==> tools_text(
            named_text(list, tail),
            tools,
        ) == written(without_spaces(lexemes)),
{
    compacting_keeps_the_lexemes(lexemes, true);
    if forall|k: int| 0 <= k < tools.len() ==> (#[trigger] tools[k]).name@ == tools[k].snake_name@ {
        snake_case_tools_rename_nothing(written(lexemes), tools, false);
    } else {
        let k = choose|k: int|
            0 <= k < tools.len() && (#[trigger] tools[k]).name@ != tools[k].snake_name@;
        every_name_is_turned(list, names, tail, tools, false, k);
    }
}

/// The decoder starts from the end token, and then is fed what was picked last.
pub proof fn the_decoder_is_fed_what_was_picked(d: &Decoding)
    ensures
        d.progress().ids.len() == 0 ==> d.next_input() == 1,
        d.progress().ids.len() > 0 ==> d.next_input() == d.progress().ids[d.progress().ids.len()
            - 1],
{
}

/// Tensors of different layers, of different fields or of different halves of
/// the model have different names.
pub proof fn tensor_names_are_apart(i: nat, j: nat, a: Seq<char>, b: Seq<char>)
    ensures
        encoder_tensor_name(i, a) == encoder_tensor_name(j, b) <==> i == j && a == b,
        decoder_tensor_name(i, a) == decoder_tensor_name(j, b) <==> i == j && a == b,
        encoder_tensor_name(i, a) != decoder_tensor_name(j, b),
        encoder_tensor_name(i, a) == "encoder."@ + decimal(i) + "."@ + a,
        decoder_tensor_name(i, a) == "decoder."@ + decimal(i) + "."@ + a,
{
    reveal_strlit("encoder.");
    reveal_strlit("decoder.");
    reveal_strlit(".");
    let x = encoder_tensor_name(i, a);
    let y = decoder_tensor_name(j, b);
    assert(x[0] == 'e');
    assert(y[0] == 'd');
    if encoder_tensor_name(i, a) == encoder_tensor_name(j, b) {
        lemma_name_parts("encoder."@, i, j, a, b);
    }
    if decoder_tensor_name(i, a) == decoder_tensor_name(j, b) {
        lemma_name_parts("decoder."@, i, j, a, b);
    }
}

proof fn lemma_name_parts(head: Seq<char>, i: nat, j: nat, a: Seq<char>, b: Seq<char>)
    requires
        head + decimal(i) + "."@ + a == head + decimal(j) + "."@ + b,
    ensures
        i == j,
        a == b,
{
    reveal_strlit(".");
    let x = head + decimal(i) + "."@ + a;
    let y = head + decimal(j) + "."@ + b;
    let n = head.len() as int;
    let p = decimal(i).len() as int;
    let q = decimal(j).len() as int;
    decimals_are_digits(i);
    decimals_are_digits(j);
    assert(x[n + p] == '.');
    assert(y[n + q] == '.');
    if p < q {
        assert(y[n + p] == decimal(j)[p]);
    }
    if q < p {
        assert(x[n + q] == decimal(i)[q]);
    }
    assert(x.subrange(n, n + p) =~= decimal(i));
    assert(y.subrange(n, n + q) =~= decimal(j));
    assert(x.skip(n + p + 1) =~= a);
    assert(y.skip(n + q + 1) =~= b);
    decimal_reads_back(i);
    decimal_reads_back(j);
}

} // verus!
