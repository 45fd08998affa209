//! Prompts, generations and draws.

use needle::floats::argmax;
use needle::prompt::{build_prompt, compact_json};
use needle::v3::cache::KvPrecision;
use needle::v3::container::{CactError, V3GeometryError};
use needle::v3::engine::{
    extract_tool_call, prompt_ids, reasoning, scored_text, bounded_ids, Generation, RoomAction,
    SplitMix64, StopReason, TokenAction, V3EngineError, V3Options,
};
use needle::v3::guard::Guard;
use needle::v3::layout::V3LayoutError;
use needle::v3::model::{check_model, chunks, last_scores, ModelSizes, V3ModelError};
use needle::v3::config::{V3Config, V3Engram};
use needle::v3::slice::V3LoadError;

fn bits(values: &[f32]) -> Vec<u32> {
    values.iter().map(|v| v.to_bits()).collect()
}

#[test]
fn extracts_a_call_past_the_reasoning() {
    let text = "<think>\nweather in Paris\n</think>\n\
                <tool_call>[{\"name\":\"get_weather\"}]</tool_call>";
    assert_eq!(
        extract_tool_call(text).as_deref(),
        Some("[{\"name\":\"get_weather\"}]")
    );
    assert_eq!(reasoning(text).as_deref(), Some("weather in Paris"));
}

#[test]
fn an_empty_array_is_an_abstention_not_a_failure() {
    // The distinction callers must not collapse.
    assert_eq!(
        extract_tool_call("<tool_call>[]</tool_call>").as_deref(),
        Some("[]")
    );
    assert_eq!(extract_tool_call("I cannot help with that"), None);
}

#[test]
fn an_unterminated_call_still_yields_its_payload() {
    // Budget exhausted mid-call: better to hand back what there is than
    // to report nothing.
    assert_eq!(
        extract_tool_call("<tool_call>[{\"name\":\"get_w").as_deref(),
        Some("[{\"name\":\"get_w")
    );
}

#[test]
fn greedy_picks_the_maximum() {
    assert_eq!(argmax(&bits(&[0.1, 2.0, 0.3])), 1);
    assert_eq!(argmax(&bits(&[-5.0, -1.0, -9.0])), 1);
}

#[test]
fn draws_replay_for_a_seed() {
    let draw = |seed: u64| {
        let mut r = SplitMix64::new(seed);
        (0..16).map(|_| r.next_draw()).collect::<Vec<u64>>()
    };
    assert_eq!(draw(42), draw(42), "same seed must replay");
    assert_ne!(draw(42), draw(43), "different seeds should diverge");
    assert!(draw(42).iter().all(|n| *n < 1 << 53));
    let mut r = SplitMix64::new(0);
    assert_eq!(r.next_u64(), 0xE220_A839_7B1D_CDAF);
    assert_eq!(r.next_u64(), 0x6E78_9E6A_A1B9_65F4);
    let mut r = SplitMix64::new(0);
    assert_eq!(r.next_draw(), 0xE220_A839_7B1D_CDAF >> 11);
}

#[test]
fn the_prompt_is_the_chat_template() {
    assert_eq!(
        build_prompt("hi", "[ ]", None),
        "<|im_start|>user\n<tools>[]</tools>\nhi<|im_end|>\n<|im_start|>assistant\n"
    );
    assert_eq!(
        build_prompt("hi", "[]", Some("be brief")),
        "<|im_start|>system\nbe brief<|im_end|>\n\
         <|im_start|>user\n<tools>[]</tools>\nhi<|im_end|>\n<|im_start|>assistant\n"
    );
    assert_eq!(
        scored_text("hi", "[]", "yes"),
        "<|im_start|>user\n<tools>[]</tools>\nhi<|im_end|>\n<|im_start|>assistant\nyes"
    );
    // A form feed is no JSON white space.
    assert_eq!(compact_json("{ \"a b\" :\u{c}1 }"), "{\"a b\":\u{c}1}");
}

#[test]
fn prompts_start_with_the_beginning_token() {
    assert_eq!(prompt_ids(2, &[7, 8]), vec![2, 7, 8]);
    assert_eq!(bounded_ids(2, &[7, 8, 9], 3), vec![2, 7, 8]);
    assert_eq!(bounded_ids(2, &[7, 8, 9], 9), vec![2, 7, 8, 9]);
    assert_eq!(bounded_ids(2, &[7], 0), Vec::<u32>::new());
}

#[test]
fn a_generation_stops_at_the_end_tokens() {
    let mut g = Generation::start(3, 100, 10, 1, Some(6));
    assert_eq!(g.left(), 10);
    assert_eq!(g.accept(50), TokenAction::Keep);
    assert_eq!(g.check_room(3), RoomAction::Continue);
    assert_eq!(g.accept(6), TokenAction::Stop);
    assert_eq!(g.stop(), Some(StopReason::ImEnd));
    let r = g.finish("x".to_string(), 4);
    assert_eq!(r.tokens, vec![50]);
    assert_eq!(r.stop, StopReason::ImEnd);
    assert_eq!((r.text.as_str(), r.positions), ("x", 4));

    let mut g = Generation::start(3, 100, 10, 1, None);
    assert_eq!(g.accept(1), TokenAction::Stop);
    assert_eq!(g.stop(), Some(StopReason::Eos));
    assert!(g.tokens().is_empty());
}

#[test]
fn a_generation_stops_when_its_budget_is_spent() {
    let mut g = Generation::start(3, 100, 1, 1, None);
    assert_eq!(g.accept(9), TokenAction::Keep);
    assert_eq!(g.check_room(3), RoomAction::FeedAndStop);
    assert_eq!(g.stop(), Some(StopReason::MaxTokens));
    let g = Generation::start(3, 100, 0, 1, None);
    assert_eq!(g.stop(), Some(StopReason::MaxTokens));
}

/// Pick `picks` the way a model is driven: it stands behind the prompt and
/// every kept token but the last.
fn drive(prompt: usize, window: usize, max_new: usize, picks: &[u32]) -> (Generation, usize) {
    let mut g = Generation::start(prompt, window, max_new, 1, Some(6));
    let mut pos = prompt.min(window);
    for &p in picks {
        if g.stop().is_some() || g.accept(p) == TokenAction::Stop {
            break;
        }
        match g.check_room(pos) {
            RoomAction::Stop => break,
            RoomAction::FeedAndStop | RoomAction::Continue => pos += 1,
        }
    }
    (g, pos)
}

#[test]
fn a_full_context_is_not_a_spent_budget() {
    // Room for three tokens, ten asked for.
    let (g, pos) = drive(5, 8, 10, &[40, 41, 42, 43]);
    assert_eq!(g.stop(), Some(StopReason::MaxSeqLen));
    assert_eq!((g.tokens(), pos), (&[40u32, 41, 42][..], 8));
    // The context is full exactly when the budget is spent.
    let (g, pos) = drive(5, 8, 3, &[40, 41, 42, 43]);
    assert_eq!(g.stop(), Some(StopReason::MaxTokens));
    assert_eq!((g.tokens().len(), pos), (3, 8));
    let (g, _) = drive(5, 8, 2, &[40, 41, 42, 43]);
    assert_eq!(g.stop(), Some(StopReason::MaxTokens));
    assert_eq!(g.tokens(), &[40, 41]);
    // An end token comes first.
    let (g, _) = drive(5, 8, 10, &[40, 6]);
    assert_eq!(g.stop(), Some(StopReason::ImEnd));
    // A prompt that fills the window, and one that is longer.
    assert_eq!(Generation::start(8, 8, 10, 1, None).stop(), Some(StopReason::MaxSeqLen));
    assert_eq!(Generation::start(8, 8, 0, 1, None).stop(), Some(StopReason::MaxTokens));
    let g = Generation::start(9, 4, 10, 1, None);
    assert_eq!((g.left(), g.stop()), (0, Some(StopReason::MaxSeqLen)));
}

#[test]
fn a_model_past_the_context_is_not_fed() {
    let mut g = Generation::start(3, 5, 10, 1, None);
    g.accept(9);
    assert_eq!(g.check_room(5), RoomAction::Stop);
    assert_eq!(g.stop(), Some(StopReason::MaxSeqLen));
}

#[test]
fn reports_add_up() {
    let mut g = Generation::start(1, 100, 10, 1, None);
    let mut all = String::new();
    for full in ["h", "hé", "hé", "héllo"] {
        if let Some(d) = g.emit(full) {
            all.push_str(&d);
        }
    }
    assert_eq!(all, "héllo");
    assert_eq!(g.emit("h"), None);
}

#[test]
fn options_are_greedy_unless_told_otherwise() {
    let mut o = V3Options::default();
    assert_eq!((o.max_new_tokens, o.seed), (256, 0));
    assert!(o.system.is_none());
    assert!(o.is_greedy());
    for (t, greedy) in [(0.7f32, false), (-1.0, true), (-0.0, true), (f32::NAN, false)] {
        o.temperature = t.to_bits();
        assert_eq!(o.is_greedy(), greedy, "{t}");
    }
    o.temperature = f32::NEG_INFINITY.to_bits();
    assert!(o.is_greedy());
    assert!(!o.constrain);
    assert_eq!(o.kv_precision, KvPrecision::F32);
}

#[test]
fn a_call_states_its_settings() {
    let o = V3Options::for_call(0, 0.5f32.to_bits(), 9, true, true);
    assert_eq!((o.max_new_tokens, o.seed, o.constrain), (256, 9, true));
    assert_eq!(o.kv_precision, KvPrecision::Int8);
    assert!(!o.is_greedy());
    let o = V3Options::for_call(7, 0, 0, false, false);
    assert_eq!((o.max_new_tokens, o.constrain), (7, false));
    assert_eq!(o.kv_precision, KvPrecision::F32);
}

/// Every byte is a token, and so are a few longer pieces.
fn byte_tokens() -> Vec<(u32, Vec<u8>)> {
    let mut all: Vec<(u32, Vec<u8>)> = (0u32..256).map(|b| (b, vec![b as u8])).collect();
    all.push((256, b"getWeather".to_vec()));
    all.push((257, b"get_weather".to_vec()));
    all
}

fn follow_text(g: &mut Guard, text: &str) {
    for b in text.bytes() {
        g.follow(b as u32);
    }
}

const TOOLS: &str = r#"[{"name":"getWeather","parameters":{"properties":{"city":{},"day":{}}}}]"#;

#[test]
fn a_guard_holds_the_payload_to_the_declared_names() {
    let mut g = Guard::new(true, TOOLS, byte_tokens());
    assert!(g.mask(258).iter().all(|&m| m == 0), "nothing is open yet");
    follow_text(&mut g, r#"<think>weather</think><tool_call>[{"name":""#);
    let m = g.mask(258);
    assert_eq!((m[256], m[b'g' as usize]), (0, 0));
    assert!(m[257] < 0 && m[b'w' as usize] < 0 && m[b'"' as usize] < 0);
    g.follow(256);
    let m = g.mask(258);
    let open: Vec<usize> = (0..258).filter(|&i| m[i] == 0).collect();
    assert_eq!(open, vec![b'"' as usize]);
    follow_text(&mut g, r#"","arguments":{""#);
    let m = g.mask(258);
    let open: Vec<usize> = (0..258).filter(|&i| m[i] == 0).collect();
    assert_eq!(open, vec![b'c' as usize, b'd' as usize]);
}

#[test]
fn an_idle_guard_allows_everything() {
    let mut g = Guard::new(false, TOOLS, byte_tokens());
    follow_text(&mut g, r#"[{"name":""#);
    assert_eq!(g.mask(258), vec![0; 258]);
}

#[test]
fn chunks_cover_a_sequence() {
    let all: Vec<(usize, usize)> = chunks(130).iter().map(|c| (c.start, c.len)).collect();
    assert_eq!(all, vec![(0, 64), (64, 64), (128, 2)]);
    assert_eq!(chunks(5).len(), 1);
    assert_eq!(chunks(0).len(), 0);
    assert_eq!(last_scores(&[1, 2, 3, 4, 5, 6], 2, 3), vec![5, 6]);
}

fn tiny() -> V3Config {
    V3Config {
        vocab_size: 10,
        out_vocab: 0,
        d_model: 4,
        num_heads: 1,
        num_kv_heads: 1,
        num_layers: 2,
        qk_head_dim: 4,
        v_head_dim: 4,
        max_seq_len: 8,
        hada_n: 4,
        mhc_lanes: 1,
        rope_theta: 0,
        sliding_window: 2,
        global_layers: vec![],
        qkv_conv_taps: 1,
        engram: V3Engram {
            orders: vec![2],
            heads: 1,
            slots: 2,
            sub_dim: 4,
            sites: vec![1],
            conv_taps: 1,
            conv_dilation: 1,
            seed_heads: 0,
        },
    }
}

#[test]
fn a_models_tensors_must_fit_its_geometry() {
    let good = ModelSizes { layers: 2, engram_sites: 1, embedding_rows: 10, embedding_cols: 4 };
    assert_eq!(check_model(&tiny(), good), Ok(()));
    let e = check_model(&tiny(), ModelSizes { layers: 1, ..good }).unwrap_err();
    assert_eq!(e, V3ModelError::LayerCount);
    assert_eq!(e.message(), "layer count does not match geometry");
    let e = check_model(&tiny(), ModelSizes { engram_sites: 0, ..good }).unwrap_err();
    assert_eq!(e.message(), "engram site count does not match geometry");
    let e = check_model(&tiny(), ModelSizes { embedding_cols: 5, ..good }).unwrap_err();
    assert_eq!(e.message(), "embedding shape does not match geometry");
}

#[test]
fn errors_read_as_sentences() {
    let cases: Vec<(V3LoadError, &str)> = vec![
        (
            V3LoadError::Cact(CactError::Truncated { need: 196, got: 3 }),
            "container: file is truncated: need 196 bytes, got 3",
        ),
        (
            V3LoadError::Cact(CactError::BadCount { what: "engram sites", got: 17 }),
            "container: too many engram sites: 17",
        ),
        (
            V3LoadError::Cact(CactError::OutOfBounds { index: 4 }),
            "container: tensor 4 lies outside the file",
        ),
        (
            V3LoadError::Cact(CactError::NotFloats { index: 4 }),
            "container: tensor 4 does not hold plain numbers",
        ),
        (
            V3LoadError::Geometry(V3GeometryError::NoEngramOrders),
            "geometry: container declares no engram orders",
        ),
        (
            V3LoadError::Geometry(V3GeometryError::TableCountNotDivisible { tables: 7, orders: 2 }),
            "geometry: engram tables 7 is not a multiple of 2 orders, so the per-order head count is undefined",
        ),
        (
            V3LoadError::Geometry(V3GeometryError::SubDimMismatch { declared: 9, derived: 8 }),
            "geometry: engram sub_dim 9 disagrees with d_model / (orders * heads) = 8",
        ),
        (
            V3LoadError::Geometry(V3GeometryError::HeadsNotDivisible { heads: 5, kv_heads: 2 }),
            "geometry: 5 query heads do not divide into 2 kv heads",
        ),
        (
            V3LoadError::Layout(V3LayoutError::TooFewTensors { need: 10, got: 3 }),
            "layout: canon needs at least 10 tensors, directory has 3",
        ),
        (
            V3LoadError::Layout(V3LayoutError::BadShape {
                index: 3,
                what: "q_proj",
                want: [8, 4],
                got: [9, 4],
            }),
            "layout: slot 3 (q_proj): want 8x4, got 9x4",
        ),
        (V3LoadError::EmptyScalar("attn_gate"), "attn_gate tensor is empty"),
        (V3LoadError::Shape("depth is outside the ladder"), "depth is outside the ladder"),
    ];
    for (e, text) in cases {
        assert_eq!(e.message(), text);
        assert_eq!(V3EngineError::Load(e).message(), text);
    }
    assert_eq!(V3EngineError::NoTokenizer.message(), "container carries no tokenizer");
    assert_eq!(V3EngineError::BadTokenizer.message(), "embedded tokenizer did not decode");
    assert_eq!(V3EngineError::Io("gone".to_string()).message(), "gone");
}
