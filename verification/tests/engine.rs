//! Requests, answers and the decoding loop.

use needle::config::TransformerConfig;
use needle::engine::{
    check_model, compact_json, contrastive_dim, decoder_tensor, encoder_input, encoder_shares,
    encoder_tensor, finish_text, packed_groups, prepare, Decoding, LoadError,
};
use needle::rename::{normalize_tools_json, restore_tool_names};
use needle::tokenizer::{score_texts, Vocabulary, EOS_ID, TOOLS_ID, TOOL_CALL_ID};
use needle::tools::ToolDef;

/// compact_json: whitespace outside strings is removed; string content is preserved.
#[test]
fn test_compact_json_strips_whitespace() {
    assert_eq!(compact_json(r#"{"a": 1, "b": 2}"#), r#"{"a":1,"b":2}"#);
    assert_eq!(
        compact_json(r#"[ { "name" : "Foo" } ]"#),
        r#"[{"name":"Foo"}]"#
    );
    // Whitespace INSIDE strings must be preserved
    assert_eq!(
        compact_json(r#"{"desc": "hello world"}"#),
        r#"{"desc":"hello world"}"#
    );
    // Escaped quote inside string must not end the string early
    assert_eq!(
        compact_json(r#"{"d": "say \"hi\""}"#),
        r#"{"d":"say \"hi\""}"#
    );
    // Already compact — no change
    assert_eq!(compact_json(r#"[{"name":"foo"}]"#), r#"[{"name":"foo"}]"#);
    // Multi-byte UTF-8 inside strings must not be corrupted
    let with_utf8 = "{\"desc\": \"caf\u{00e9}\"}"; // {"desc": "café"}
    let compacted = compact_json(with_utf8);
    assert_eq!(compacted, "{\"desc\":\"caf\u{00e9}\"}"); // {"desc":"café"} — accent preserved
    assert!(
        compacted.contains('\u{00e9}'),
        "é must survive compaction, not be split into bytes"
    );
    // Backslash-escape sequence — the char after \ must not be re-processed
    assert_eq!(compact_json(r#"{"k": "a\\b"}"#), r#"{"k":"a\\b"}"#);
}

/// restore_tool_names: snake_case names in output are restored to original names.
#[test]
fn test_restore_tool_names_basic() {
    let tool_defs =
        ToolDef::from_json(r#"[{"name":"getWeather","description":"x","parameters":{}}]"#);
    // Model emits snake_case; we must get original back.
    let output = r#"[{"name":"get_weather","arguments":{"location":"Paris"}}]"#;
    let restored = restore_tool_names(output, &tool_defs);
    assert!(
        restored.contains("\"name\":\"getWeather\""),
        "original name not restored: {restored}"
    );
    assert!(
        !restored.contains("get_weather"),
        "snake_case leaked into output: {restored}"
    );
}

/// restore_tool_names: names already in snake_case (no mapping needed) pass through.
#[test]
fn test_restore_tool_names_already_snake() {
    let tool_defs =
        ToolDef::from_json(r#"[{"name":"get_weather","description":"x","parameters":{}}]"#);
    let output = r#"[{"name":"get_weather","arguments":{"location":"Paris"}}]"#;
    let restored = restore_tool_names(output, &tool_defs);
    assert_eq!(restored, output, "no-op rename must not modify output");
}

/// restore_tool_names: multiple tools, longest snake name replaced first.
#[test]
fn test_restore_tool_names_multiple_tools() {
    let tool_defs = ToolDef::from_json(
        r#"[
        {"name":"getWeather","description":"x","parameters":{}},
        {"name":"getWeatherForecast","description":"y","parameters":{}}
    ]"#,
    );
    let output = r#"[{"name":"get_weather_forecast","arguments":{}}]"#;
    let restored = restore_tool_names(output, &tool_defs);
    assert!(
        restored.contains("\"name\":\"getWeatherForecast\""),
        "longest match must win: {restored}"
    );
    assert!(
        !restored.contains("getWeather\","), // short match must not apply first
        "short match applied before long: {restored}"
    );
}

/// The shares of the encoder never count more than there is room for.
#[test]
fn test_enc_input_truncation_no_underflow() {
    for max_enc in [0usize, 1, 2, 3, 512] {
        for query_len in [0usize, 1, 2, 100, 512, 1000] {
            let (q_len, _remaining) = encoder_shares(query_len, usize::MAX, max_enc);
            assert_eq!(q_len, query_len.min(max_enc.saturating_sub(2)));
            assert_eq!(_remaining, max_enc.saturating_sub(q_len + 1));
            assert!(
                q_len + 1 + _remaining <= max_enc || max_enc == 0,
                "overcounting: q_len={q_len} remaining={_remaining} max_enc={max_enc}"
            );
        }
    }
}

/// Escaped quotes in description values must survive normalize_tools_json unchanged.
#[test]
fn test_normalize_tools_json_escaped_quote_in_description() {
    let json = r#"[{"name":"get_weather","description":"Get \"current\" weather"}]"#;
    let defs = ToolDef::from_json(json);
    let result = normalize_tools_json(json, &defs);
    // The description's escaped quotes must be preserved verbatim.
    assert!(
        result.contains(r#""Get \"current\" weather""#),
        "escaped quotes in description corrupted: {result}"
    );
    // The tool name must be untouched (already snake_case).
    assert!(
        result.contains(r#""name":"get_weather""#),
        "tool name was corrupted: {result}"
    );
}

/// Escaped quote inside a "name" value itself must not truncate the name.
#[test]
fn test_normalize_tools_json_name_with_escaped_quote() {
    // Unusual but valid JSON: a name containing a backslash-escaped quote.
    let json = r#"[{"name":"get\"weather","description":"test"}]"#;
    let defs = ToolDef::from_json(json);
    let result = normalize_tools_json(json, &defs);
    // The backslash-escaped quote inside the name value must not break scanning:
    // the name should be captured as `get\"weather` (7 chars before `"`) — or the
    // whole string — but critically the function must not panic.
    let _ = result; // just verify no panic
}

/// A vocabulary of single characters behind the six fixed tokens.
fn letters() -> Vocabulary {
    let mut content = String::from("<pad>\n</s>\n<s>\n<unk>\n<tool_call>\n<tools>\n\u{2581}\n");
    for c in "abcdefghijklmnopqrstuvwxyzABCDEFGHIJKLMNOPQRSTUVWXYZ_0123456789[]{}\":,.".chars() {
        content.push(c);
        content.push('\n');
    }
    let n = score_texts(&content).len();
    Vocabulary::parse(&content, &vec![0u32; n])
}

#[test]
fn the_encoder_reads_query_separator_tools() {
    assert_eq!(encoder_input(&[10, 11], &[20, 21], 16), Some(vec![10, 11, TOOLS_ID, 20, 21]));
    // Cut to five: at most three of the query, one of the tools.
    assert_eq!(
        encoder_input(&[10, 11, 12, 13, 14], &[20, 21], 5),
        Some(vec![10, 11, 12, TOOLS_ID, 20])
    );
    assert_eq!(encoder_input(&[10], &[20], 1), Some(vec![TOOLS_ID]));
    assert_eq!(encoder_input(&[10], &[20], 0), None);
    assert_eq!(encoder_input(&[], &[], 8), None);
    assert_eq!(encoder_input(&[], &[20], 8), Some(vec![TOOLS_ID, 20]));
}

#[test]
fn a_request_is_normalised_before_it_is_encoded() {
    let vocab = letters();
    let spaced = prepare(&vocab, "hi", "[ {\"name\": \"getIt\"} ]", 64).unwrap();
    let compact = prepare(&vocab, "hi", "[{\"name\":\"get_it\"}]", 64).unwrap();
    assert_eq!(spaced.enc_input, compact.enc_input);
    assert_eq!(spaced.tool_defs[0].name, "getIt");
    assert_eq!(spaced.tool_defs[0].snake_name, "get_it");
    assert!(prepare(&vocab, "  ", "", 64).is_none());
    assert!(prepare(&vocab, "hi", "[]", 0).is_none());
}

#[test]
fn a_run_feeds_back_what_it_picked() {
    let vocab = letters();
    let size = vocab.id_to_piece.len();
    let mut run = Decoding::start(&vocab, &[], 2);
    assert_eq!(run.input(), Some(EOS_ID));
    let mask = run.mask(size);
    assert_eq!(mask, vec![0; size]);
    let mut scores = vec![0.0f32.to_bits(); size];
    scores[9] = 1.0f32.to_bits();
    assert_eq!(run.pick(&scores), Some(9));
    assert_eq!(run.input(), Some(9));
    // Of equal scores the last one is picked.
    scores[11] = 1.0f32.to_bits();
    assert_eq!(run.pick(&scores), Some(11));
    assert_eq!(run.input(), None, "the budget is spent");
    let r = run.result(&vocab, &[]);
    assert_eq!(r.token_ids, vec![9, 11]);
    assert_eq!(r.text, "ce");
}

#[test]
fn a_run_ends_with_the_end_token() {
    let vocab = letters();
    let mut run = Decoding::start(&vocab, &[], 8);
    let mut scores = vec![0.0f32.to_bits(); 8];
    scores[EOS_ID as usize] = 2.0f32.to_bits();
    assert_eq!(run.pick(&scores), None);
    assert_eq!(run.input(), None);
    assert_eq!(run.result(&vocab, &[]).token_ids, Vec::<u32>::new());
    // No score at all ends it too.
    let mut run = Decoding::start(&vocab, &[], 8);
    assert_eq!(run.pick(&[]), None);
}

#[test]
fn a_constrained_run_spells_a_declared_name() {
    let vocab = letters();
    let size = vocab.id_to_piece.len();
    let tools = ToolDef::from_json("[{\"name\":\"ab\",\"parameters\":{}}]");
    let mut run = Decoding::start(&vocab, &tools, 64);
    for c in "[{\"name\":\"".chars() {
        let mut scores = vec![0.0f32.to_bits(); size];
        let id = vocab.piece_id(&c.to_string()).unwrap() as usize;
        scores[id] = 1.0f32.to_bits();
        run.pick(&scores);
    }
    let mask = run.mask(size);
    let a = vocab.piece_id("a").unwrap() as usize;
    let b = vocab.piece_id("b").unwrap() as usize;
    assert_eq!(mask[a], 0);
    assert_eq!(mask[b], -1_000_000_000);
}

#[test]
fn an_answer_loses_its_marker_and_gets_its_names_back() {
    let vocab = letters();
    let tools = ToolDef::from_json("[{\"name\":\"getIt\",\"parameters\":{}}]");
    let mut ids = vec![TOOL_CALL_ID];
    ids.extend(vocab.encode("[{\"name\":\"get_it\"}]").into_iter().skip(1));
    assert_eq!(finish_text(&vocab, &ids, &tools), "[{\"name\":\"getIt\"}]");
    assert_eq!(finish_text(&vocab, &ids[1..], &[]), "[{\"name\":\"get_it\"}]");
}

#[test]
fn normalising_and_restoring_are_inverse() {
    let json = "[{\"name\":\"getWeather\",\"x\":1},{\"name\":\"setTimer\"}]";
    let tools = ToolDef::from_json(json);
    let snake = normalize_tools_json(json, &tools);
    assert_eq!(snake, "[{\"name\":\"get_weather\",\"x\":1},{\"name\":\"set_timer\"}]");
    assert_eq!(restore_tool_names(&snake, &tools), json);
}

#[test]
fn a_form_feed_is_white_space_here() {
    assert_eq!(compact_json("{\u{c}\"a\":\u{c}1}"), "{\"a\":1}");
}

#[test]
fn tensors_are_named_by_side_layer_and_field() {
    assert_eq!(encoder_tensor(0, "norm"), "encoder.0.norm");
    assert_eq!(decoder_tensor(11, "cross_attn"), "decoder.11.cross_attn");
}

#[test]
fn a_model_is_checked_before_it_is_built() {
    let cfg = TransformerConfig::default();
    assert_eq!(check_model(&cfg, Some(8192 * 512)), Ok(()));
    let err = check_model(&cfg, None).unwrap_err();
    assert_eq!(err, LoadError::MissingEmbedding);
    assert_eq!(err.message(), "missing embedding tensor");
    let err = check_model(&cfg, Some(7)).unwrap_err();
    assert_eq!(err.message(), "embedding size mismatch: got 7, expected 4194304");
    let mut odd = cfg;
    odd.num_heads = 7;
    // The configuration is looked at first.
    assert!(matches!(check_model(&odd, None), Err(LoadError::Config(_))));
}

#[test]
fn sizes_of_stored_tensors() {
    assert_eq!(packed_groups(12, 4), Some(3));
    assert_eq!(packed_groups(13, 4), None);
    assert_eq!(packed_groups(0, 4), Some(0));
    assert_eq!(packed_groups(12, 0), None);
    assert_eq!(contrastive_dim(32, 4, 12, 8), Some(3));
    assert_eq!(contrastive_dim(31, 4, 12, 8), None);
    assert_eq!(contrastive_dim(32, 4, 13, 8), None);
    assert_eq!(contrastive_dim(0, 0, 12, 8), None);
    assert_eq!(contrastive_dim(usize::MAX, usize::MAX, 0, 2), None);
}

#[test]
fn a_whole_text_comes_back_from_snake_case() {
    let json = concat_lines(&[
        "[{\"name\":\"getWeather\",\"d\":\"a \\\"name\\\" b\"},",
        "{\"name\":\"plain\"},{\"name\":\"setTimer\",\"parameters\":{\"name\":\"x y\"}},",
        "{\"name\":null},{\"k\":\"name\"}]",
    ]);
    let tools = ToolDef::from_json(
        "[{\"name\":\"getWeather\"},{\"name\":\"plain\"},{\"name\":\"setTimer\"}]",
    );
    assert_eq!(tools.len(), 3);
    let snake = normalize_tools_json(&json, &tools);
    assert_eq!(
        snake,
        json.replace("getWeather", "get_weather").replace("setTimer", "set_timer")
    );
    assert_eq!(restore_tool_names(&snake, &tools), json);
    // A value that the text ends in comes back too.
    let cut = "[{\"name\":\"setTimer";
    assert_eq!(normalize_tools_json(cut, &tools), "[{\"name\":\"set_timer");
    assert_eq!(restore_tool_names("[{\"name\":\"set_timer", &tools), cut);
}

#[test]
fn a_snake_case_name_that_no_tool_has_is_not_its_own() {
    // Nothing was renamed, yet the text speaks of the tool that would be.
    let tools = ToolDef::from_json("[{\"name\":\"getWeather\"}]");
    let text = "{\"name\":\"get_weather\"}";
    assert_eq!(normalize_tools_json(text, &tools), text);
    assert_eq!(restore_tool_names(text, &tools), "{\"name\":\"getWeather\"}");
    // White space behind the key does not come back.
    let spaced = "{\"name\": \"getWeather\"}";
    let there = normalize_tools_json(spaced, &tools);
    assert_eq!(there, "{\"name\":\"get_weather\"}");
    assert_eq!(restore_tool_names(&there, &tools), "{\"name\":\"getWeather\"}");
}

fn concat_lines(lines: &[&str]) -> String {
    let mut out = String::new();
    for line in lines {
        out.push_str(line);
    }
    out
}

/// One run over a model that wants to write `text`, with what it reported.
fn write_out(vocab: &Vocabulary, tools_json: &str, text: &str, budget: usize) -> (Vec<u32>, Vec<u32>, String) {
    let size = vocab.id_to_piece.len();
    let tools = ToolDef::from_json(tools_json);
    let mut run = Decoding::start(vocab, &tools, budget);
    let mut wanted = vec![TOOL_CALL_ID];
    wanted.extend(text.chars().map(|c| vocab.piece_id(&c.to_string()).unwrap()));
    wanted.push(EOS_ID);
    let mut heard = Vec::new();
    let mut step = 0;
    while let Some(_fed) = run.input() {
        let mask = run.mask(size);
        let mut scores = vec![0.0f32; size];
        scores[wanted[step] as usize] = 1.0;
        let biased: Vec<u32> = scores.iter().zip(&mask).map(|(s, m)| (s + *m as f32).to_bits()).collect();
        if let Some(token) = run.pick(&biased) {
            heard.push(token);
        }
        step += 1;
    }
    let r = run.result(vocab, &tools);
    (heard, r.token_ids, r.text)
}

#[test]
fn a_request_is_answered_the_same_each_time() {
    let vocab = letters();
    let tools = "[{\"name\":\"getIt\",\"parameters\":{}}]";
    let first = write_out(&vocab, tools, "[{\"name\":\"get_it\"}]", 64);
    let second = write_out(&vocab, tools, "[{\"name\":\"get_it\"}]", 64);
    assert_eq!(first, second);
    let (heard, ids, text) = first;
    assert_eq!(heard, ids, "each kept token is reported once, in order");
    assert_eq!(ids.len(), 20);
    assert_eq!(ids[0], TOOL_CALL_ID);
    assert_eq!(text, "[{\"name\":\"getIt\"}]");
    assert!(!text.starts_with("<tool_call>"));
    // A budget cuts both short alike.
    let (heard, ids, text) = write_out(&vocab, tools, "[{\"name\":\"get_it\"}]", 3);
    assert_eq!(heard, ids);
    assert_eq!(ids.len(), 3);
    assert_eq!(text, "[{");
}

#[test]
fn one_marker_is_taken_off() {
    let vocab = letters();
    let a = vocab.piece_id("a").unwrap();
    assert_eq!(finish_text(&vocab, &[TOOL_CALL_ID, a], &[]), "a");
    assert_eq!(finish_text(&vocab, &[a, TOOL_CALL_ID], &[]), "a<tool_call>");
    assert_eq!(finish_text(&vocab, &[TOOL_CALL_ID, TOOL_CALL_ID, a], &[]), "<tool_call>a");
}
