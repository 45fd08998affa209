//! Optional constraint on a generation: the payload may name only tools and
//! argument keys that the caller declared.
//!
//! The prompt shows the tools under their declared names, so those are the
//! names the output is held to.

use vstd::prelude::*;
use crate::constrained::{
    bias,
    bytes_of,
    bytes_of_token,
    fresh_machine,
    key_set,
    keys_for,
    run,
    tool_names,
    ConstrainedDecoder,
};
use crate::text::{chars_of, text_of};
use crate::tools::{is_tool, tools_from, views, ToolDef, ToolSpec};
use crate::v3::rows::extend;

verus! {

/// A list of words, as bytes.
pub open spec fn word_set(words: Seq<Seq<char>>) -> Set<Seq<u8>>
    decreases words.len(),
{
    if words.len() == 0 {
        Set::empty()
    } else {
        word_set(words.drop_last()).insert(bytes_of(words.last()))
    }
}

/// The declared tool names.
pub open spec fn declared_names(tools: Seq<ToolSpec>) -> Set<Seq<u8>>
    decreases tools.len(),
{
    if tools.len() == 0 {
        Set::empty()
    } else {
        declared_names(tools.drop_last()).insert(bytes_of(tools.last().0))
    }
}

/// The argument keys of the tool declared as `name`; the last declaration of a
/// name counts.
pub open spec fn declared_keys(tools: Seq<ToolSpec>, name: Seq<u8>) -> Option<Set<Seq<u8>>>
    decreases tools.len(),
{
    if tools.len() == 0 {
        None
    } else if bytes_of(tools.last().0) == name {
        Some(word_set(tools.last().1))
    } else {
        declared_keys(tools.drop_last(), name)
    }
}

/// The tool goes by its declared name.
spec fn by_own_name(t: ToolDef, spec: ToolSpec) -> bool {
    t.snake_name@ == spec.0 && views(t.param_keys@) == spec.1
}

proof fn lemma_key_set(keys: Seq<String>)
    ensures
        key_set(keys) == word_set(views(keys)),
    decreases keys.len(),
{
    if keys.len() > 0 {
        lemma_key_set(keys.drop_last());
        assert(views(keys).drop_last() =~= views(keys.drop_last()));
        assert(views(keys).last() == keys.last()@);
    }
}

proof fn lemma_declared(list: Seq<ToolDef>, tools: Seq<ToolSpec>, name: Seq<u8>)
    requires
        list.len() == tools.len(),
        forall|i: int| 0 <= i < list.len() ==> by_own_name(#[trigger] list[i], tools[i]),
    ensures
        tool_names(list) == declared_names(tools),
        keys_for(list, name) == declared_keys(tools, name),
    decreases list.len(),
{
    if list.len() > 0 {
        let n = list.len() - 1;
        assert(by_own_name(list[n], tools[n]));
        assert forall|i: int| 0 <= i < n implies by_own_name(
            #[trigger] list.drop_last()[i],
            tools.drop_last()[i],
        ) by {
            assert(by_own_name(list[i], tools[i]));
        }
        lemma_declared(list.drop_last(), tools.drop_last(), name);
        lemma_key_set(list.last().param_keys@);
    }
}

/// What constrains a generation, where anything does.
pub struct Guard {
    decoder: Option<ConstrainedDecoder>,
}

impl Guard {
    /// The decoder that follows the output; `None` where nothing is
    /// constrained.
    pub closed spec fn decoder(&self) -> Option<ConstrainedDecoder> {
        self.decoder
    }

    pub open spec fn wf(&self) -> bool {
        self.decoder() matches Some(d) ==> d.wf()
    }

    /// A guard for a request. `token_bytes` is what each vocabulary token
    /// writes.
    pub fn new(constrain: bool, tools_json: &str, token_bytes: Vec<(u32, Vec<u8>)>) -> (guard: Self)
        ensures
            guard.wf(),
            guard.decoder() is Some <==> constrain,
            guard.decoder() matches Some(d) ==> {
                &&& d.names() == declared_names(tools_from(tools_json@, 0))
                &&& forall|f: Seq<u8>| #[trigger]
                    d.keys(f) == declared_keys(tools_from(tools_json@, 0), f)
                &&& d.tokens() == token_bytes@
                &&& d.machine() == fresh_machine()
            },
    {
        if !constrain {
            return Guard { decoder: None };
        }
        let ghost declared = tools_from(tools_json@, 0);
        let mut tools = ToolDef::from_json(tools_json);
        let total: usize = tools.len();
        let mut i: usize = 0;
        while i < total
            invariant
                i <= total == tools@.len() == declared.len(),
                forall|k: int| i <= k < total ==> is_tool(#[trigger] tools@[k], declared[k]),
                forall|k: int| 0 <= k < i ==> by_own_name(#[trigger] tools@[k], declared[k]),
            decreases total - i,
        {
            let ghost before = tools@;
            assert(is_tool(tools@[i as int], declared[i as int]));
            let own = text_of(&chars_of(tools[i].name.as_str()));
            tools[i].snake_name = own;
            assert forall|k: int| 0 <= k <= i implies by_own_name(
                #[trigger] tools@[k],
                declared[k],
            ) by {
                if k < i {
                    assert(tools@[k] == before[k]);
                }
            }
            assert forall|k: int| i < k < total implies is_tool(
                #[trigger] tools@[k],
                declared[k],
            ) by {
                assert(tools@[k] == before[k]);
            }
            i = i + 1;
        }
        let decoder = ConstrainedDecoder::new(&tools, token_bytes);
        proof {
            lemma_declared(tools@, declared, Seq::empty());
            assert forall|f: Seq<u8>| #[trigger] decoder.keys(f) == declared_keys(declared, f) by {
                lemma_declared(tools@, declared, f);
            }
        }
        Guard { decoder: Some(decoder) }
    }

    /// The bias on each token's score: zero where it may be chosen.
    pub fn mask(&self, vocab_size: usize) -> (mask: Vec<i32>)
        requires
            self.wf(),
        ensures
            mask@.len() == vocab_size,
            forall|id: int|
                0 <= id < vocab_size ==> #[trigger] mask@[id] == match self.decoder() {
                    Some(d) => match d.slot() {
                        Some(set) => bias(set, d.machine().buf, d.tokens(), vocab_size as nat, id),
                        None => 0,
                    },
                    None => 0,
                },
    {
        match &self.decoder {
            Some(d) => d.logit_mask(vocab_size),
            None => {
                let mut mask: Vec<i32> = Vec::new();
                extend(&mut mask, vocab_size, 0i32);
                mask
            },
        }
    }

    /// Follow a token that was chosen.
    pub fn follow(&mut self, token: u32)
        requires
            old(self).wf(),
        ensures
            final(self).wf(),
            match (old(self).decoder(), final(self).decoder()) {
                (Some(before), Some(after)) => {
                    &&& after.machine() == run(
                        before.machine(),
                        bytes_of_token(before.tokens(), token),
                    )
                    &&& after.names() == before.names()
                    &&& forall|f: Seq<u8>| #[trigger] after.keys(f) == before.keys(f)
                    &&& after.tokens() == before.tokens()
                },
                (None, None) => true,
                _ => false,
            },
    {
        match &mut self.decoder {
            Some(d) => d.update(token),
            None => {},
        }
    }
}

/// A guard holds the output to the tools as they were declared, by their own
/// names: a word is allowed as a name exactly where a tool is declared so.
pub proof fn a_guard_knows_the_declared_names(tools: Seq<ToolSpec>, word: Seq<u8>)
    ensures
        declared_names(tools).contains(word) <==> exists|i: int|
            0 <= i < tools.len() && word == vstd::utf8::encode_utf8((#[trigger] tools[i]).0),
    decreases tools.len(),
{
    if tools.len() > 0 {
        let before = tools.drop_last();
        let n = tools.len() - 1;
        a_guard_knows_the_declared_names(before, word);
        assert(tools[n] == tools.last());
        if declared_names(before).contains(word) {
            let i = choose|i: int|
                0 <= i < before.len() && word == vstd::utf8::encode_utf8((#[trigger] before[i]).0);
            assert(tools[i] == before[i]);
        }
        if exists|i: int|
            0 <= i < tools.len() && word == vstd::utf8::encode_utf8((#[trigger] tools[i]).0) {
            let i = choose|i: int|
                0 <= i < tools.len() && word == vstd::utf8::encode_utf8((#[trigger] tools[i]).0);
            if i < n {
                assert(before[i] == tools[i]);
            }
        }
    }
}

proof fn lemma_word_set(words: Seq<Seq<char>>, word: Seq<u8>)
    ensures
        word_set(words).contains(word) <==> exists|k: int|
            0 <= k < words.len() && word == vstd::utf8::encode_utf8(#[trigger] words[k]),
    decreases words.len(),
{
    if words.len() > 0 {
        let before = words.drop_last();
        let n = words.len() - 1;
        lemma_word_set(before, word);
        assert(words[n] == words.last());
        if word_set(before).contains(word) {
            let k = choose|k: int|
                0 <= k < before.len() && word == vstd::utf8::encode_utf8(#[trigger] before[k]);
            assert(words[k] == before[k]);
        }
        if exists|k: int|
            0 <= k < words.len() && word == vstd::utf8::encode_utf8(#[trigger] words[k]) {
            let k = choose|k: int|
                0 <= k < words.len() && word == vstd::utf8::encode_utf8(#[trigger] words[k]);
            if k < n {
                assert(before[k] == words[k]);
            }
        }
    }
}

/// And a word as a key of a tool exactly where its last declaration has it;
/// the keys of a name that no tool is declared by are not constrained.
pub proof fn a_guard_knows_the_declared_keys(tools: Seq<ToolSpec>, name: Seq<u8>, key: Seq<u8>)
    ensures
        match declared_keys(tools, name) {
            Some(set) => exists|i: int|
                {
                    &&& 0 <= i < tools.len()
                    &&& vstd::utf8::encode_utf8((#[trigger] tools[i]).0) == name
                    &&& forall|j: int|
                        i < j < tools.len() ==> vstd::utf8::encode_utf8((#[trigger] tools[j]).0)
                            != name
                    &&& set.contains(key) <==> exists|k: int|
                        0 <= k < tools[i].1.len() && key == vstd::utf8::encode_utf8(
                            #[trigger] tools[i].1[k],
                        )
                },
            None => forall|j: int|
                0 <= j < tools.len() ==> vstd::utf8::encode_utf8((#[trigger] tools[j]).0) != name,
        },
    decreases tools.len(),
{
    if tools.len() > 0 {
        let n = tools.len() - 1;
        let before = tools.drop_last();
        assert(tools[n] == tools.last());
        if bytes_of(tools[n].0) == name {
            lemma_word_set(tools[n].1, key);
        } else {
            a_guard_knows_the_declared_keys(before, name, key);
            match declared_keys(before, name) {
                Some(set) => {
                    let i = choose|i: int|
                        {
                            &&& 0 <= i < before.len()
                            &&& vstd::utf8::encode_utf8((#[trigger] before[i]).0) == name
                            &&& forall|j: int|
                                i < j < before.len() ==> vstd::utf8::encode_utf8(
                                    (#[trigger] before[j]).0,
                                ) != name
                            &&& set.contains(key) <==> exists|k: int|
                                0 <= k < before[i].1.len() && key == vstd::utf8::encode_utf8(
                                    #[trigger] before[i].1[k],
                                )
                        };
                    assert(tools[i] == before[i]);
                    assert forall|j: int| i < j < tools.len() implies vstd::utf8::encode_utf8(
                        (#[trigger] tools[j]).0,
                    ) != name by {
                        if j < n {
                            assert(before[j] == tools[j]);
                        }
                    }
                },
                None => {
                    assert forall|j: int| 0 <= j < tools.len() implies vstd::utf8::encode_utf8(
                        (#[trigger] tools[j]).0,
                    ) != name by {
                        if j < n {
                            assert(before[j] == tools[j]);
                        }
                    }
                },
            }
        }
    }
}

} // verus!
