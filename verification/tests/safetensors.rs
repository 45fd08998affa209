//! Weight files, the configuration they carry and the weights in them.

use needle::attn::{layer_caches, AttnConfig, KvCache};
use needle::config::{load_config_from_safetensors, ConfigError, FfnActivation, TransformerConfig};
use needle::engine::LoadError;
use needle::safetensors::{SafeTensors, SafeTensorsError};
use needle::weights::{
    load_attn_weights, load_contrastive_head, load_encoder_layer, load_model, load_quant,
    load_scalar, load_vec, QuantSource,
};

fn file(json: &str, data: &[u8]) -> Vec<u8> {
    let mut buf = Vec::new();
    buf.extend_from_slice(&(json.len() as u64).to_le_bytes());
    buf.extend_from_slice(json.as_bytes());
    buf.extend_from_slice(data);
    buf
}

fn read(json: &str, data: &[u8]) -> SafeTensors {
    SafeTensors::from_bytes(file(json, data)).expect("parse")
}

fn fault(json: &str) -> SafeTensorsError {
    SafeTensors::from_bytes(file(json, &[])).err().expect("must be refused")
}

/// SafeTensors brace parser: unbalanced `}` must not wrap the usize depth counter.
#[test]
fn test_safetensors_unbalanced_brace_no_underflow() {
    // Header with an extra `}` closing brace inside a metadata value.
    let json = "{\"__metadata__\":{\"k\":\"v\"}}";
    let header_bytes = json.as_bytes();
    let mut buf = Vec::new();
    buf.extend_from_slice(&(header_bytes.len() as u64).to_le_bytes());
    buf.extend_from_slice(header_bytes);
    // Must parse without panic.
    let st = SafeTensors::from_bytes(buf).expect("must not panic on valid JSON");
    assert_eq!(st.get_metadata("k"), Some("v"));
}

/// SafeTensors JSON parser: tensor names and metadata values containing escaped quotes
/// must not truncate at the `\"` and must still parse correctly.
#[test]
fn test_safetensors_parser_escaped_quotes_in_metadata() {
    // Metadata value contains an escaped quote: `value with "quotes"`.
    let json = "{\"__metadata__\":{\"key\":\"value with \\\"quotes\\\"\"}}";
    let header_bytes = json.as_bytes();
    let mut buf = Vec::new();
    buf.extend_from_slice(&(header_bytes.len() as u64).to_le_bytes());
    buf.extend_from_slice(header_bytes);
    // No tensor data needed.

    let st = SafeTensors::from_bytes(buf).expect("parse must succeed");
    let val = st
        .get_metadata("key")
        .expect("metadata key must be present");
    assert!(
        !val.is_empty(),
        "metadata value was empty — parser truncated at escaped quote"
    );
    assert!(
        !val.starts_with("value with \"quotes\"") || val.len() > 5,
        "metadata value truncated: got {val:?}"
    );
    assert_eq!(val, "value with \\\"quotes\\\"");
}

/// SafeTensors I4 shape validation: malformed tensor (shape mismatch) must return None, not panic.
#[test]
fn test_safetensors_i4_shape_mismatch_returns_none() {
    // Build a minimal SafeTensors buffer with an I4 tensor where raw bytes * 2 != shape volume.
    // Shape claims [4, 4] = 16 elements but we only provide 6 bytes (12 values ≠ 16).
    let json = r#"{"t":{"dtype":"I4","shape":[4,4],"data_offsets":[0,6]}}"#;
    let header_bytes = json.as_bytes();
    let mut buf = Vec::new();
    buf.extend_from_slice(&(header_bytes.len() as u64).to_le_bytes());
    buf.extend_from_slice(header_bytes);
    buf.extend_from_slice(&[0xABu8; 6]); // 6 bytes → 12 values, but shape needs 16

    let st = SafeTensors::from_bytes(buf).expect("parse should succeed");
    // get_f32 must return None (not panic) for a shape-mismatched I4 tensor
    assert!(
        st.get_f32("t").is_none(),
        "expected None for I4 shape mismatch but got Some(_)"
    );
}

#[test]
fn every_stored_form_widens_to_single_precision() {
    let json = r#"{"a":{"dtype":"F32","shape":[1],"data_offsets":[0,4]},
        "b":{"dtype":"BF16","shape":[1],"data_offsets":[4,6]},
        "c":{"dtype":"F16","shape":[1],"data_offsets":[6,8]},
        "d":{"dtype":"I8","shape":[2],"data_offsets":[8,10]},
        "e":{"dtype":"I4","shape":[2,1],"data_offsets":[10,11]}}"#;
    let mut data = Vec::new();
    data.extend_from_slice(&1.25f32.to_le_bytes());
    data.extend_from_slice(&0xC040u16.to_le_bytes());
    data.extend_from_slice(&0x3800u16.to_le_bytes());
    data.extend_from_slice(&[0xFF, 0x07]);
    data.push(0x8F);
    let st = read(json, &data);
    let values = |name: &str| -> Vec<f32> {
        st.get_f32(name).unwrap().iter().map(|b| f32::from_bits(*b)).collect()
    };
    assert_eq!(values("a"), vec![1.25]);
    assert_eq!(values("b"), vec![-3.0]);
    assert_eq!(values("c"), vec![0.5]);
    assert_eq!(values("d"), vec![-1.0, 7.0]);
    // The low nibble comes first.
    assert_eq!(values("e"), vec![-1.0, -8.0]);
    assert_eq!(st.get_raw("d"), Some(&[0xFFu8, 0x07][..]));
    assert_eq!(st.meta("e").unwrap().shape, vec![2, 1]);
    assert!(st.meta("f").is_none());
    assert!(st.get_f32("f").is_none());
}

#[test]
fn a_tensor_past_the_end_has_no_bytes() {
    let json = r#"{"a":{"dtype":"I8","shape":[4],"data_offsets":[0,4]},"b":{"dtype":"I8","shape":[1],"data_offsets":[1,0]}}"#;
    let st = read(json, &[1, 2, 3]);
    assert!(st.get_raw("a").is_none());
    assert!(st.get_f32("a").is_none());
    assert!(st.get_raw("b").is_none());
}

#[test]
fn braces_and_letters_of_any_script_may_stand_in_strings() {
    let json = "{\"__metadata__\":{\"k\":\"a}b{ü\"},\"t\":{\"dtype\":\"I8\",\"shape\":[1],\"data_offsets\":[0,1]}}";
    let st = read(json, &[5]);
    assert_eq!(st.get_metadata("k"), Some("a}b{ü"));
    assert_eq!(st.get_raw("t"), Some(&[5u8][..]));
}

#[test]
fn broken_headers_are_refused() {
    assert_eq!(SafeTensors::from_bytes(vec![1, 2]).err().unwrap(), SafeTensorsError::Truncated);
    let mut long = 9u64.to_le_bytes().to_vec();
    long.push(b'{');
    let e = SafeTensors::from_bytes(long).err().unwrap();
    assert_eq!(e.message(), "failed to fill whole buffer");
    let mut bad = 2u64.to_le_bytes().to_vec();
    bad.extend_from_slice(&[0xC3, 0x28]);
    let e = SafeTensors::from_bytes(bad).err().unwrap();
    assert_eq!(e, SafeTensorsError::InvalidUtf8);
    assert_eq!(e.message(), "invalid UTF-8 header");
    assert_eq!(fault("[1]").message(), "expected JSON object");
    assert_eq!(
        fault(r#"{"t":{"shape":[1],"data_offsets":[0,1]}}"#).message(),
        "missing dtype for t"
    );
    assert_eq!(
        fault(r#"{"t":{"dtype":"I8","data_offsets":[0,1]}}"#).message(),
        "missing shape for t"
    );
    assert_eq!(
        fault(r#"{"t":{"dtype":"I8","shape":[1]}}"#).message(),
        "missing data_offsets for t"
    );
    assert_eq!(
        fault(r#"{"t":{"dtype":"I8","shape":[1],"data_offsets":[0,1,2]}}"#).message(),
        "data_offsets must have 2 elements"
    );
    assert_eq!(
        fault(r#"{"t":{"dtype":"Q7","shape":[1],"data_offsets":[0,1]}}"#).message(),
        "unknown dtype Q7"
    );
}

#[test]
fn a_file_without_settings_has_the_defaults() {
    let st = read("{}", &[]);
    let cfg = load_config_from_safetensors(&st, None);
    assert_eq!(cfg, TransformerConfig::default());
    assert_eq!(f32::from_bits(cfg.rope_theta), 10000.0);
    assert_eq!((cfg.head_dim(), cfg.kv_repeat()), (64, 2));
    assert_eq!(cfg.validate(), Ok(()));
}

#[test]
fn settings_are_read_from_the_header() {
    let st = read(
        r#"{"__metadata__":{"d_model":"64","num_heads":"4","num_kv_heads":"2","max_seq_len":"77","no_feedforward":"False","activation":"geglu","num_encoder_layers":"x"}}"#,
        &[],
    );
    let cfg = load_config_from_safetensors(&st, Some(500.0f32.to_bits()));
    assert_eq!((cfg.d_model, cfg.num_heads, cfg.num_kv_heads), (64, 4, 2));
    assert_eq!(cfg.max_enc_len, 77);
    assert!(!cfg.no_feedforward);
    assert_eq!(cfg.activation, FfnActivation::GeGLU);
    assert_eq!(cfg.num_layers, 12, "an unreadable number is no number");
    assert_eq!(f32::from_bits(cfg.rope_theta), 500.0);
    let st = read(r#"{"__metadata__":{"max_enc_len":"5","max_seq_len":"77"}}"#, &[]);
    assert_eq!(load_config_from_safetensors(&st, None).max_enc_len, 5);
}

#[test]
fn uneven_heads_are_refused() {
    let mut cfg = TransformerConfig::default();
    cfg.num_heads = 7;
    assert_eq!(cfg.validate(), Err(ConfigError::UnevenHeads));
    assert_eq!(ConfigError::UnevenHeads.message(), "d_model must be a multiple of num_heads");
    cfg.num_heads = 8;
    cfg.num_kv_heads = 3;
    assert_eq!(cfg.validate(), Err(ConfigError::UnevenKvHeads));
    assert_eq!(
        ConfigError::UnevenKvHeads.message(),
        "num_heads must be a multiple of num_kv_heads"
    );
    cfg.num_kv_heads = 0;
    assert_eq!(cfg.validate(), Err(ConfigError::NoHeads));
    assert_eq!(
        ConfigError::NoHeads.message(),
        "num_heads and num_kv_heads must not be zero"
    );
}

/// A file of I8 tensors, each `(name, values)`.
fn tensors(list: &[(&str, Vec<i8>)]) -> SafeTensors {
    let mut json = String::from("{");
    let mut data: Vec<u8> = Vec::new();
    for (i, (name, values)) in list.iter().enumerate() {
        if i > 0 {
            json.push(',');
        }
        json.push_str(&format!(
            "\"{name}\":{{\"dtype\":\"I8\",\"shape\":[{}],\"data_offsets\":[{},{}]}}",
            values.len(),
            data.len(),
            data.len() + values.len()
        ));
        data.extend(values.iter().map(|v| *v as u8));
    }
    json.push('}');
    read(&json, &data)
}

fn small() -> TransformerConfig {
    TransformerConfig {
        d_model: 4,
        num_heads: 2,
        num_kv_heads: 1,
        num_layers: 1,
        num_dec_layers: 1,
        vocab_size: 3,
        ..TransformerConfig::default()
    }
}

#[test]
fn a_matrix_is_packed_dense_or_missing() {
    let st = tensors(&[
        ("m", vec![1, 2, 3]),
        ("m.scale", vec![1, 1, 1, 1]),
        ("n", vec![4, 5]),
        ("n.scale", vec![1, 1, 1]),
    ]);
    match load_quant(&st, "m", 2) {
        QuantSource::Packed { data, scales, num_groups } => {
            assert_eq!(data, vec![1, 2, 3]);
            assert_eq!(scales, vec![1.0f32.to_bits(); 4]);
            assert_eq!(num_groups, 2);
        }
        other => panic!("expected packed codes, got {other:?}"),
    }
    // Scales that do not come out even are not used.
    match load_quant(&st, "n", 2) {
        QuantSource::Dense { values } => {
            assert_eq!(values, vec![4.0f32.to_bits(), 5.0f32.to_bits()])
        }
        other => panic!("expected numbers, got {other:?}"),
    }
    assert!(matches!(load_quant(&st, "o", 2), QuantSource::Missing));
    // Nor are they where there are no columns to scale.
    assert!(matches!(load_quant(&st, "m", 0), QuantSource::Dense { .. }));
    assert_eq!(load_vec(&st, "n", 9), vec![4.0f32.to_bits(), 5.0f32.to_bits()]);
    assert_eq!(load_vec(&st, "o", 2), vec![0, 0]);
    assert_eq!(load_scalar(&st, "n"), 4.0f32.to_bits());
    assert_eq!(load_scalar(&st, "o"), 0);
}

#[test]
fn a_layer_reads_its_own_tensors() {
    let st = tensors(&[
        ("encoder.0.self_attn.wq", vec![1; 16]),
        ("encoder.0.self_attn.q_norm", vec![2; 2]),
        ("encoder.0.self_attn_gate", vec![3]),
        ("encoder.0.ffn.gate_proj", vec![7; 8]),
        ("encoder.0.ffn_gate", vec![6]),
    ]);
    let cfg = small();
    let layer = load_encoder_layer(&st, &cfg, 0);
    assert!(matches!(layer.self_attn.wq, QuantSource::Dense { .. }));
    assert!(matches!(layer.self_attn.wk, QuantSource::Missing));
    assert_eq!(layer.self_attn.q_norm, vec![2.0f32.to_bits(); 2]);
    assert_eq!(layer.self_attn.k_norm, vec![0, 0]);
    assert_eq!(layer.self_attn_gate, 3.0f32.to_bits());
    assert_eq!(layer.norm, vec![0; 4]);
    assert!(layer.ffn.is_none());
    let with_ffn = TransformerConfig { no_feedforward: false, ffn_dim: 2, ..cfg };
    let ffn = load_encoder_layer(&st, &with_ffn, 0).ffn.unwrap();
    assert!(matches!(ffn.gate_proj, QuantSource::Dense { .. }));
    assert!(matches!(ffn.down_proj, QuantSource::Missing));
    assert_eq!(ffn.gate, 6.0f32.to_bits());
    let attn = load_attn_weights(&st, &cfg, "encoder.1.self_attn");
    assert!(matches!(attn.wq, QuantSource::Missing));
}

#[test]
fn a_model_needs_its_embedding() {
    let cfg = small();
    let st = tensors(&[("embedding", vec![1; 12]), ("encoder_final_norm", vec![1; 4])]);
    let model = load_model(&st, &cfg).expect("a model");
    assert_eq!(model.embedding.len(), 12);
    assert_eq!(model.encoder_layers.len(), 1);
    assert_eq!(model.decoder_layers.len(), 1);
    assert_eq!(model.encoder_final_norm, vec![1.0f32.to_bits(); 4]);
    assert_eq!(model.decoder_final_norm, vec![0; 4]);
    let e = load_model(&tensors(&[]), &cfg).err().unwrap();
    assert_eq!(e, LoadError::MissingEmbedding);
    let e = load_model(&tensors(&[("embedding", vec![1; 11])]), &cfg).err().unwrap();
    assert_eq!(e, LoadError::EmbeddingSize { got: 11, expected: 12 });
}

#[test]
fn a_contrastive_head_must_fit_together() {
    let st = tensors(&[
        ("contrastive_hidden_kernel", vec![1; 8]),
        ("contrastive_hidden_bias", vec![1; 2]),
        ("contrastive_proj_kernel", vec![1; 6]),
    ]);
    let head = load_contrastive_head(&st, 4).unwrap();
    assert_eq!((head.hidden_dim, head.contrastive_dim), (2, 3));
    assert!(load_contrastive_head(&st, 5).is_none());
    assert!(load_contrastive_head(&tensors(&[]), 4).is_none());
}

#[test]
fn a_full_cache_takes_nothing_more() {
    let cfg = AttnConfig { num_heads: 4, num_kv_heads: 2, head_dim: 1, d_model: 4 };
    assert_eq!(cfg.kv_repeat(), 2);
    let mut cache = KvCache::new(2, 2, 1, 0.0f32);
    assert!(cache.push_kv(&[1.0, 2.0], &[3.0, 4.0]));
    assert!(cache.push_kv(&[5.0, 6.0], &[7.0, 8.0]));
    assert!(!cache.push_kv(&[9.0, 9.0], &[9.0, 9.0]));
    assert_eq!(cache.k, vec![1.0, 2.0, 5.0, 6.0]);
    assert_eq!(cache.v, vec![3.0, 4.0, 7.0, 8.0]);
    assert_eq!(cache.len, 2);
    cache.reset();
    assert_eq!(cache.len, 0);
    assert!(cache.push_kv(&[9.0, 9.0], &[9.0, 9.0]));
    assert_eq!(layer_caches(3, 2, 2, 1, 0.0f32).len(), 3);
}
