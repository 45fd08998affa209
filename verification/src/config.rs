//! Hyperparameters of the encoder-decoder model.

use vstd::prelude::*;
use crate::safetensors::SafeTensors;
use crate::text::{
    chars_of,
    decimal,
    decimal_reads_back,
    number_value,
    parse_usize,
    push_str,
    same_chars,
    text_of,
};

verus! {

/// How a feed-forward layer combines its gate and its input.
#[derive(Debug, Clone, Copy, PartialEq, Eq, Structural)]
pub enum FfnActivation {
    SwiGLU,
    GeGLU,
    DRelu,
}

/// The activation that a name stands for; any other name is the default.
pub open spec fn activation_named(name: Seq<char>) -> FfnActivation {
    if name == "swiglu"@ {
        FfnActivation::SwiGLU
    } else if name == "geglu"@ {
        FfnActivation::GeGLU
    } else {
        FfnActivation::DRelu
    }
}

fn is_text(s: &str, other: &str) -> (same: bool)
    ensures
        same == (s@ == other@),
{
    let a = chars_of(s);
    let b = chars_of(other);
    same_chars(&a, &b)
}

impl FfnActivation {
    pub fn parse(name: &str) -> (activation: Self)
        ensures
            activation == activation_named(name@),
    {
        if is_text(name, "swiglu") {
            FfnActivation::SwiGLU
        } else if is_text(name, "geglu") {
            FfnActivation::GeGLU
        } else {
            FfnActivation::DRelu
        }
    }
}

/// Why a configuration cannot be used.
#[derive(Debug, Clone, Copy, PartialEq, Eq, Structural)]
pub enum ConfigError {
    NoHeads,
    UnevenHeads,
    UnevenKvHeads,
}

impl ConfigError {
    pub open spec fn text(&self) -> Seq<char> {
        match self {
            ConfigError::NoHeads => "num_heads and num_kv_heads must not be zero"@,
            ConfigError::UnevenHeads => "d_model must be a multiple of num_heads"@,
            ConfigError::UnevenKvHeads => "num_heads must be a multiple of num_kv_heads"@,
        }
    }

    /// The error in words.
    pub fn message(&self) -> (s: String)
        ensures
            s@ == self.text(),
    {
        let mut out: Vec<char> = Vec::new();
        match self {
            ConfigError::NoHeads => push_str(
                &mut out,
                "num_heads and num_kv_heads must not be zero",
            ),
            ConfigError::UnevenHeads => push_str(
                &mut out,
                "d_model must be a multiple of num_heads",
            ),
            ConfigError::UnevenKvHeads => push_str(
                &mut out,
                "num_heads must be a multiple of num_kv_heads",
            ),
        }
        assert(out@ =~= self.text());
        text_of(&out)
    }
}

/// All hyperparameters of the model.
#[derive(Debug, Clone, Copy, PartialEq, Eq, Structural)]
pub struct TransformerConfig {
    pub d_model: usize,
    pub num_heads: usize,
    pub num_kv_heads: usize,
    pub num_layers: usize,
    pub num_dec_layers: usize,
    pub vocab_size: usize,
    pub max_enc_len: usize,
    pub max_dec_len: usize,
    pub ffn_dim: usize,
    pub no_feedforward: bool,
    pub activation: FfnActivation,
    /// The base of the rotary embedding, as the bits of a single-precision
    /// number.
    pub rope_theta: u32,
    pub pad_id: u32,
    pub eos_id: u32,
    pub bos_id: u32,
    pub unk_id: u32,
    pub tool_call_id: u32,
    pub tools_id: u32,
}

/// The values a model has where its file gives none.
pub open spec fn default_config() -> TransformerConfig {
    TransformerConfig {
        d_model: 512,
        num_heads: 8,
        num_kv_heads: 4,
        num_layers: 12,
        num_dec_layers: 8,
        vocab_size: 8192,
        max_enc_len: 1024,
        max_dec_len: 512,
        ffn_dim: 2048,
        no_feedforward: true,
        activation: FfnActivation::DRelu,
        rope_theta: 0x461c_4000,
        pad_id: 0,
        eos_id: 1,
        bos_id: 2,
        unk_id: 3,
        tool_call_id: 4,
        tools_id: 5,
    }
}

impl Default for TransformerConfig {
    fn default() -> (cfg: Self)
        ensures
            cfg == default_config(),
    {
        TransformerConfig {
            d_model: 512,
            num_heads: 8,
            num_kv_heads: 4,
            num_layers: 12,
            num_dec_layers: 8,
            vocab_size: 8192,
            max_enc_len: 1024,
            max_dec_len: 512,
            ffn_dim: 2048,
            no_feedforward: true,
            activation: FfnActivation::DRelu,
            rope_theta: 0x461c_4000,
            pad_id: 0,
            eos_id: 1,
            bos_id: 2,
            unk_id: 3,
            tool_call_id: 4,
            tools_id: 5,
        }
    }
}

impl TransformerConfig {
    /// The width of one head.
    pub fn head_dim(&self) -> (d: usize)
        requires
            self.num_heads != 0,
        ensures
            d == self.d_model / self.num_heads,
    {
        self.d_model / self.num_heads
    }

    /// Query heads served by one key/value head.
    pub fn kv_repeat(&self) -> (r: usize)
        requires
            self.num_kv_heads != 0,
        ensures
            r == self.num_heads / self.num_kv_heads,
    {
        self.num_heads / self.num_kv_heads
    }

    /// Why the heads cannot be laid out, if they cannot.
    pub open spec fn fault(&self) -> Option<ConfigError> {
        if self.num_heads == 0 || self.num_kv_heads == 0 {
            Some(ConfigError::NoHeads)
        } else if self.d_model % self.num_heads != 0 {
            Some(ConfigError::UnevenHeads)
        } else if self.num_heads % self.num_kv_heads != 0 {
            Some(ConfigError::UnevenKvHeads)
        } else {
            None
        }
    }

    /// Check that heads divide the model, and key/value heads the heads.
    pub fn validate(&self) -> (r: Result<(), ConfigError>)
        ensures
            match r {
                Ok(_) => self.fault() is None,
                Err(e) => self.fault() == Some(e),
            },
    {
        if self.num_heads == 0 || self.num_kv_heads == 0 {
            Err(ConfigError::NoHeads)
        } else if self.d_model % self.num_heads != 0 {
            Err(ConfigError::UnevenHeads)
        } else if self.num_heads % self.num_kv_heads != 0 {
            Err(ConfigError::UnevenKvHeads)
        } else {
            Ok(())
        }
    }
}

/// In a configuration that passes, the heads cover the model exactly and the
/// key/value heads serve every head.
pub proof fn a_valid_config_covers_the_model(cfg: TransformerConfig)
    requires
        cfg.fault() is None,
    ensures
        (cfg.d_model / cfg.num_heads) * cfg.num_heads == cfg.d_model,
        (cfg.num_heads / cfg.num_kv_heads) * cfg.num_kv_heads == cfg.num_heads,
{
    let d = cfg.d_model as int;
    let h = cfg.num_heads as int;
    let kv = cfg.num_kv_heads as int;
    vstd::arithmetic::div_mod::lemma_fundamental_div_mod(d, h);
    vstd::arithmetic::div_mod::lemma_fundamental_div_mod(h, kv);
    assert((d / h) * h == h * (d / h)) by (nonlinear_arith);
    assert((h / kv) * kv == kv * (h / kv)) by (nonlinear_arith);
}

/// A number that a text gives, if it gives one that fits.
pub open spec fn number_in(text: Option<Seq<char>>) -> Option<usize> {
    match text {
        Some(t) => match number_value(t) {
            Some(n) => if n <= usize::MAX {
                Some(n as usize)
            } else {
                None
            },
            None => None,
        },
        None => None,
    }
}

/// A number of the file's texts, or a fallback.
pub open spec fn number_or(text: Option<Seq<char>>, fallback: usize) -> usize {
    match number_in(text) {
        Some(n) => n,
        None => fallback,
    }
}

/// Whether a text says yes.
pub open spec fn says_yes(t: Seq<char>) -> bool {
    t == "True"@ || t == "true"@ || t == "1"@
}

fn number_field(st: &SafeTensors, key: &str) -> (n: Option<usize>)
    ensures
        n == number_in(st.text(key@)),
{
    match st.get_metadata(key) {
        Some(s) => {
            let chars = chars_of(s);
            parse_usize(&chars)
        },
        None => None,
    }
}

fn number_field_or(st: &SafeTensors, key: &str, fallback: usize) -> (n: usize)
    ensures
        n == number_or(st.text(key@), fallback),
{
    match number_field(st, key) {
        Some(n) => n,
        None => fallback,
    }
}

/// The configuration that a file's texts give. Files name their encoder length
/// `max_enc_len`, and older ones `max_seq_len`.
pub open spec fn config_of(st: SafeTensors, rope_theta: Option<u32>) -> TransformerConfig {
    let d = default_config();
    TransformerConfig {
        d_model: number_or(st.text("d_model"@), d.d_model),
        num_heads: number_or(st.text("num_heads"@), d.num_heads),
        num_kv_heads: number_or(st.text("num_kv_heads"@), d.num_kv_heads),
        num_layers: number_or(st.text("num_encoder_layers"@), d.num_layers),
        num_dec_layers: number_or(st.text("num_decoder_layers"@), d.num_dec_layers),
        vocab_size: number_or(st.text("vocab_size"@), d.vocab_size),
        max_enc_len: match number_in(st.text("max_enc_len"@)) {
            Some(n) => n,
            None => number_or(st.text("max_seq_len"@), d.max_enc_len),
        },
        max_dec_len: number_or(st.text("max_dec_len"@), d.max_dec_len),
        ffn_dim: number_or(st.text("ffn_dim"@), d.ffn_dim),
        no_feedforward: match st.text("no_feedforward"@) {
            Some(t) => says_yes(t),
            None => d.no_feedforward,
        },
        activation: match st.text("activation"@) {
            Some(t) => activation_named(t),
            None => d.activation,
        },
        rope_theta: match rope_theta {
            Some(bits) => bits,
            None => d.rope_theta,
        },
        ..d
    }
}

/// The configuration that a file's texts give, with the defaults where they
/// give none. `rope_theta` is the number that its text under that name stands
/// for, if it stands for one.
pub fn load_config_from_safetensors(st: &SafeTensors, rope_theta: Option<u32>) -> (cfg:
    TransformerConfig)
    ensures
        cfg == config_of(*st, rope_theta),
{
    let d = TransformerConfig::default();
    let max_enc_len: usize = match number_field(st, "max_enc_len") {
        Some(n) => n,
        None => number_field_or(st, "max_seq_len", d.max_enc_len),
    };
    let no_feedforward: bool = match st.get_metadata("no_feedforward") {
        Some(s) => is_text(s, "True") || is_text(s, "true") || is_text(s, "1"),
        None => d.no_feedforward,
    };
    let activation = match st.get_metadata("activation") {
        Some(s) => FfnActivation::parse(s),
        None => d.activation,
    };
    let theta: u32 = match rope_theta {
        Some(bits) => bits,
        None => d.rope_theta,
    };
    TransformerConfig {
        d_model: number_field_or(st, "d_model", d.d_model),
        num_heads: number_field_or(st, "num_heads", d.num_heads),
        num_kv_heads: number_field_or(st, "num_kv_heads", d.num_kv_heads),
        num_layers: number_field_or(st, "num_encoder_layers", d.num_layers),
        num_dec_layers: number_field_or(st, "num_decoder_layers", d.num_dec_layers),
        vocab_size: number_field_or(st, "vocab_size", d.vocab_size),
        max_enc_len,
        max_dec_len: number_field_or(st, "max_dec_len", d.max_dec_len),
        ffn_dim: number_field_or(st, "ffn_dim", d.ffn_dim),
        no_feedforward,
        activation,
        rope_theta: theta,
        pad_id: d.pad_id,
        eos_id: d.eos_id,
        bos_id: d.bos_id,
        unk_id: d.unk_id,
        tool_call_id: d.tool_call_id,
        tools_id: d.tools_id,
    }
}

/// A configuration passes exactly where whole heads make up the model and whole
/// groups of them share the key/value heads.
pub proof fn a_config_passes_where_it_multiplies_out(cfg: TransformerConfig)
    ensures
        cfg.fault() is None <==> {
            &&& cfg.num_heads > 0
            &&& cfg.num_kv_heads > 0
            &&& exists|width: int| #[trigger] (width * cfg.num_heads) == cfg.d_model
            &&& exists|group: int| #[trigger] (group * cfg.num_kv_heads) == cfg.num_heads
        },
        cfg.fault() == Some(ConfigError::NoHeads) <==> cfg.num_heads == 0 || cfg.num_kv_heads == 0,
        cfg.fault() == Some(ConfigError::UnevenHeads) <==> cfg.num_heads > 0 && cfg.num_kv_heads > 0
            && forall|width: int| #[trigger] (width * cfg.num_heads) != cfg.d_model,
{
    if cfg.num_heads > 0 && cfg.num_kv_heads > 0 {
        lemma_divides(cfg.d_model as int, cfg.num_heads as int);
        lemma_divides(cfg.num_heads as int, cfg.num_kv_heads as int);
    }
}

proof fn lemma_divides(n: int, by: int)
    requires
        by > 0,
        n >= 0,
    ensures
        n % by == 0 <==> exists|k: int| #[trigger] (k * by) == n,
{
    vstd::arithmetic::div_mod::lemma_fundamental_div_mod(n, by);
    let q = n / by;
    assert(q * by == by * q) by (nonlinear_arith);
    if n % by == 0 {
        assert(q * by == n);
    }
    if exists|k: int| #[trigger] (k * by) == n {
        let k = choose|k: int| #[trigger] (k * by) == n;
        vstd::arithmetic::div_mod::lemma_mod_multiples_basic(k, by);
    }
}

/// A field is the number written under its key, and the fallback where no text
/// stands there or one that is no number or too large.
pub open spec fn field_is(text: Option<Seq<char>>, field: usize, fallback: usize) -> bool {
    &&& text is None ==> field == fallback
    &&& forall|n: nat|
        text == Some(#[trigger] decimal(n)) ==> field == if n <= usize::MAX {
            n as usize
        } else {
            fallback
        }
    &&& text is Some && number_value(text->0) is None ==> field == fallback
}

/// A configuration is what the texts of its file say: each number under its
/// own key, with the fallback that this field has.
pub proof fn a_config_is_what_its_file_says(st: SafeTensors, rope_theta: Option<u32>)
    ensures
        ({
            let c = config_of(st, rope_theta);
            &&& field_is(st.text("d_model"@), c.d_model, 512)
            &&& field_is(st.text("num_heads"@), c.num_heads, 8)
            &&& field_is(st.text("num_kv_heads"@), c.num_kv_heads, 4)
            &&& field_is(st.text("num_encoder_layers"@), c.num_layers, 12)
            &&& field_is(st.text("num_decoder_layers"@), c.num_dec_layers, 8)
            &&& field_is(st.text("vocab_size"@), c.vocab_size, 8192)
            &&& field_is(st.text("max_dec_len"@), c.max_dec_len, 512)
            &&& field_is(st.text("ffn_dim"@), c.ffn_dim, 2048)
            &&& forall|n: usize|
                st.text("max_enc_len"@) == Some(#[trigger] decimal(n as nat)) ==> c.max_enc_len == n
            &&& st.text("max_enc_len"@) is None ==> field_is(
                st.text("max_seq_len"@),
                c.max_enc_len,
                1024,
            )
            &&& match st.text("no_feedforward"@) {
                Some(t) => c.no_feedforward <==> t == "True"@ || t == "true"@ || t == "1"@,
                None => c.no_feedforward,
            }
            &&& st.text("activation"@) == Some("swiglu"@) <==> c.activation == FfnActivation::SwiGLU
            &&& st.text("activation"@) == Some("geglu"@) <==> c.activation == FfnActivation::GeGLU
            &&& rope_theta is Some ==> c.rope_theta == rope_theta->0
            &&& rope_theta is None ==> c.rope_theta == 0x461c_4000
            &&& c.pad_id == 0 && c.eos_id == 1 && c.bos_id == 2
            &&& c.unk_id == 3 && c.tool_call_id == 4 && c.tools_id == 5
        }),
{
    assert forall|n: nat| number_value(#[trigger] decimal(n)) == Some(n) by {
        decimal_reads_back(n);
    }
    reveal_strlit("swiglu");
    reveal_strlit("geglu");
    assert("swiglu"@.len() != "geglu"@.len());
}

} // verus!
