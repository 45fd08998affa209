# needle

Inference for small on-device tool-calling models, with everything that is not
floating point written and proved in [Verus](https://github.com/verus-lang/verus).

A model is asked a question and given a list of tools; it answers with a JSON
call of one of them. This crate reads the model's files, prepares what the model
is fed, keeps the state of a session, decides which tokens may come next and when
to stop, and reads the call out of the answer. The arithmetic in between (matrix
products, norms, softmax, rotations) is ordinary Rust in `app/`, which hands
numbers across as bit patterns.

## Layout

`src/` is the verified library.

| Module | What it holds |
| --- | --- |
| `text`, `json`, `bytes`, `lists` | characters, JSON spans, little-endian numbers, searches |
| `floats` | orders and conversions on the bits of numbers: greedy picks, ranking, widening halves |
| `snake`, `rename`, `tools` | tool declarations, their snake-case names, and the way back |
| `trie`, `constrained` | the output grammar: a byte-level JSON machine and the mask over the vocabulary |
| `tokenizer` | the byte-pair vocabulary: parsing, encoding, decoding |
| `quant` | four-bit packing and the group of each row |
| `safetensors`, `config`, `weights` | the encoder-decoder model's file, its configuration and tensors |
| `attn`, `engine` | its key/value cache and its decoding loop |
| `prompt` | the chat prompt and the compact JSON it embeds |
| `v3::container`, `v3::cact`, `v3::layout` | the single-file container: header, directory, canonical order |
| `v3::config`, `v3::ladder`, `v3::slice`, `v3::load`, `v3::heads` | geometry, shallower rungs of one model, and the parts to load |
| `v3::attention`, `v3::cache`, `v3::prefill`, `v3::taps` | what a query reads, ring buffers, convolution tails |
| `v3::engram`, `v3::kernels`, `v3::mhc`, `v3::rows` | n-gram memory, permutations, lanes, row-major buffers |
| `v3::engine`, `v3::guard`, `v3::model`, `v3::message` | generation, constraint, model checks, error texts |

`tests/` runs the library on concrete values. `app/` is the program around it:
the command line, file access, the C, Python and browser bindings, and the
floating-point kernels.

## What is proved

A function's contract says what it returns and changes, for every input that it
takes, and with which error it refuses the others. Beside the contracts, public
proof functions state what holds across calls, for example:

- what is written to a file, a cache or a vocabulary is what is read back
  (`a_written_file_reads_back`, `a_query_reads_what_was_written`,
  `decoding_undoes_encoding`);
- a batched pass leaves a session where stepping leaves it
  (`a_filled_ring_is_remembered`, `stepping_leaves_the_filled_tail`,
  `an_engram_step_convolves_like_the_sequence`);
- constrained output names only declared tools and keys
  (`a_constrained_run_names_declared_tools`), as long as a token that both opens
  a slot and writes into it writes what fits there: outside a slot every token is
  allowed. Masking leaves an allowed pick alone (`masking_keeps_an_allowed_pick`);
- a request has one answer, and reports each token of it once
  (`a_request_has_one_answer`); names written in snake case come back
  (`restoring_undoes_normalising`);
- a generation says whether the context or its budget ended it
  (`a_full_context_is_reported`, `a_spent_budget_is_reported`);
- rungs of the ladder nest and keep both ends (`rungs_nest`,
  `rungs_keep_both_endpoints`), and a slice keeps the attention of its blocks
  (`slicing_keeps_attention`).

## What is trusted

Six functions of the standard library: `String::push`, `str::from_utf8`,
`String::from_utf8_lossy`, and `char::is_alphanumeric`, `is_uppercase` and
`is_lowercase` beyond ASCII. Each is declared where it is used, with what is
taken for granted of it.
