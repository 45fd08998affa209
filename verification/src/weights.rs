//! Taking a model's weights out of a SafeTensors file.
//!
//! Numbers come out as the bits of single-precision values. A matrix comes out
//! packed where the file holds it packed with its scales, and otherwise as the
//! numbers to be quantised. What is missing counts as zero.

use vstd::prelude::*;
use crate::config::{FfnActivation, TransformerConfig};
use crate::engine::{
    check_model,
    contrastive_dim,
    contrastive_width,
    decoder_tensor,
    decoder_tensor_name,
    encoder_tensor,
    encoder_tensor_name,
    load_fault,
    packed_groups,
    LoadError,
};
use crate::safetensors::SafeTensors;
use crate::text::{chars_of, decimal, push_str, text_of};

verus! {

/// The values of a tensor, as bits.
pub open spec fn values_in(st: &SafeTensors, name: Seq<char>) -> Option<Seq<u32>> {
    match st.values(name) {
        Some(v) => Some(Seq::new(v.len(), |i: int| v[i] as u32)),
        None => None,
    }
}

fn get_values(st: &SafeTensors, name: &str) -> (values: Option<Vec<u32>>)
    ensures
        match values {
            Some(v) => values_in(st, name@) == Some(v@),
            None => values_in(st, name@) is None,
        },
{
    match st.get_f32(name) {
        Some(v) => {
            assert(v@ =~= values_in(st, name@)->0);
            Some(v)
        },
        None => None,
    }
}

/// `n` zeros.
pub open spec fn zeros(n: nat) -> Seq<u32> {
    Seq::new(n, |i: int| 0u32)
}

/// A vector of a file, or zeros.
pub open spec fn vec_in(st: &SafeTensors, name: Seq<char>, len: nat) -> Seq<u32> {
    match values_in(st, name) {
        Some(v) => v,
        None => zeros(len),
    }
}

/// A number of a file, or zero.
pub open spec fn scalar_in(st: &SafeTensors, name: Seq<char>) -> u32 {
    match values_in(st, name) {
        Some(v) => if v.len() > 0 {
            v[0]
        } else {
            0
        },
        None => 0,
    }
}

/// A vector of a file; zeros where the file lacks it.
pub fn load_vec(st: &SafeTensors, name: &str, len: usize) -> (values: Vec<u32>)
    ensures
        values@ == vec_in(st, name@, len as nat),
{
    match get_values(st, name) {
        Some(v) => v,
        None => {
            let mut v: Vec<u32> = Vec::new();
            crate::v3::rows::extend(&mut v, len, 0u32);
            assert(v@ =~= zeros(len as nat));
            v
        },
    }
}

/// A number of a file; zero where the file lacks it.
pub fn load_scalar(st: &SafeTensors, name: &str) -> (value: u32)
    ensures
        value == scalar_in(st, name@),
{
    match get_values(st, name) {
        Some(v) => if v.len() > 0 {
            v[0]
        } else {
            0
        },
        None => 0,
    }
}

/// A matrix, as a file gives it.
#[derive(Debug)]
pub enum QuantSource {
    /// Packed codes and their scales.
    Packed { data: Vec<u8>, scales: Vec<u32>, num_groups: usize },
    /// Numbers to be quantised.
    Dense { values: Vec<u32> },
    /// Nothing: a matrix of zeros.
    Missing,
}

/// The name under which a matrix's scales stand.
pub open spec fn scale_name(name: Seq<char>) -> Seq<char> {
    name + ".scale"@
}

/// A matrix counts as packed where the file holds its bytes and its scales,
/// and the scales come out even over its columns. One without columns does
/// not.
pub open spec fn is_packed(st: &SafeTensors, name: Seq<char>, out_feat: nat) -> bool {
    &&& out_feat > 0
    &&& st.raw(name) is Some
    &&& values_in(st, scale_name(name)) is Some
    &&& values_in(st, scale_name(name))->0.len() % out_feat == 0
}

/// The matrix is what the file gives under `name`.
pub open spec fn is_matrix(q: QuantSource, st: &SafeTensors, name: Seq<char>, out_feat: nat) -> bool {
    if is_packed(st, name, out_feat) {
        q matches QuantSource::Packed { data, scales, num_groups } && st.raw(name) == Some(data@)
            && values_in(st, scale_name(name)) == Some(scales@) && num_groups == scales@.len()
            / out_feat
    } else {
        match values_in(st, name) {
            Some(v) => q matches QuantSource::Dense { values } && values@ == v,
            None => q is Missing,
        }
    }
}

fn copy_bytes(b: &[u8]) -> (out: Vec<u8>)
    ensures
        out@ == b@,
{
    let mut out: Vec<u8> = Vec::new();
    let mut i: usize = 0;
    while i < b.len()
        invariant
            i <= b@.len(),
            out@ == b@.take(i as int),
        decreases b.len() - i,
    {
        out.push(b[i]);
        i = i + 1;
        assert(out@ =~= b@.take(i as int));
    }
    assert(b@.take(i as int) =~= b@);
    out
}

fn joined(a: &str, b: &str) -> (out: String)
    ensures
        out@ == a@ + b@,
{
    let mut out = chars_of(a);
    push_str(&mut out, b);
    text_of(&out)
}

/// Take a matrix of `out_feat` columns out of a file.
pub fn load_quant(st: &SafeTensors, name: &str, out_feat: usize) -> (q: QuantSource)
    ensures
        is_matrix(q, st, name@, out_feat as nat),
{
    let scale = joined(name, ".scale");
    match (st.get_raw(name), get_values(st, scale.as_str())) {
        (Some(raw), Some(scales)) => {
            match packed_groups(scales.len(), out_feat) {
                Some(num_groups) => {
                    return QuantSource::Packed { data: copy_bytes(raw), scales, num_groups };
                },
                None => {},
            }
        },
        _ => {},
    }
    match get_values(st, name) {
        Some(values) => QuantSource::Dense { values },
        None => QuantSource::Missing,
    }
}

/// The weights of one attention sub-layer.
#[derive(Debug)]
pub struct AttnParts {
    pub wq: QuantSource,
    pub wk: QuantSource,
    pub wv: QuantSource,
    pub wo: QuantSource,
    pub q_norm: Vec<u32>,
    pub k_norm: Vec<u32>,
}

impl AttnParts {
    /// The weights are those that the file gives under `prefix`.
    pub open spec fn reads(&self, st: &SafeTensors, cfg: &TransformerConfig, prefix: Seq<char>) -> bool {
        let hd = cfg.d_model as nat / cfg.num_heads as nat;
        &&& is_matrix(self.wq, st, prefix + ".wq"@, cfg.num_heads as nat * hd)
        &&& is_matrix(self.wk, st, prefix + ".wk"@, cfg.num_kv_heads as nat * hd)
        &&& is_matrix(self.wv, st, prefix + ".wv"@, cfg.num_kv_heads as nat * hd)
        &&& is_matrix(self.wo, st, prefix + ".wo"@, cfg.d_model as nat)
        &&& self.q_norm@ == vec_in(st, prefix + ".q_norm"@, hd)
        &&& self.k_norm@ == vec_in(st, prefix + ".k_norm"@, hd)
    }
}

proof fn lemma_head_widths(cfg: &TransformerConfig)
    requires
        cfg.fault() is None,
    ensures
        ({
            let hd = cfg.d_model as nat / cfg.num_heads as nat;
            &&& cfg.num_heads as nat * hd <= cfg.d_model
            &&& cfg.num_kv_heads as nat * hd <= cfg.d_model
        }),
{
    let d = cfg.d_model as int;
    let h = cfg.num_heads as int;
    let kv = cfg.num_kv_heads as int;
    let hd = d / h;
    crate::config::a_valid_config_covers_the_model(*cfg);
    let r = h / kv;
    assert(r >= 1) by (nonlinear_arith)
        requires
            r * kv == h,
            h > 0,
            kv > 0,
    ;
    assert(kv <= h) by (nonlinear_arith)
        requires
            r * kv == h,
            r >= 1,
            kv > 0,
    ;
    assert(hd >= 0) by (nonlinear_arith)
        requires
            hd * h == d,
            d >= 0,
            h > 0,
    ;
    assert(h * hd <= d) by (nonlinear_arith)
        requires
            hd * h == d,
    ;
    assert(kv * hd <= d) by (nonlinear_arith)
        requires
            hd * h == d,
            0 < kv <= h,
            hd >= 0,
    ;
}

/// Take the weights of one attention sub-layer out of a file.
pub fn load_attn_weights(st: &SafeTensors, cfg: &TransformerConfig, prefix: &str) -> (parts:
    AttnParts)
    requires
        cfg.fault() is None,
    ensures
        parts.reads(st, cfg, prefix@),
{
    proof {
        lemma_head_widths(cfg);
    }
    let hd: usize = cfg.head_dim();
    let q_width: usize = cfg.num_heads * hd;
    let kv_width: usize = cfg.num_kv_heads * hd;
    AttnParts {
        wq: load_quant(st, joined(prefix, ".wq").as_str(), q_width),
        wk: load_quant(st, joined(prefix, ".wk").as_str(), kv_width),
        wv: load_quant(st, joined(prefix, ".wv").as_str(), kv_width),
        wo: load_quant(st, joined(prefix, ".wo").as_str(), cfg.d_model),
        q_norm: load_vec(st, joined(prefix, ".q_norm").as_str(), hd),
        k_norm: load_vec(st, joined(prefix, ".k_norm").as_str(), hd),
    }
}

/// The weights of one feed-forward sub-layer.
#[derive(Debug)]
pub struct FfnParts {
    pub gate_proj: QuantSource,
    pub up_proj: QuantSource,
    pub down_proj: QuantSource,
    pub gate: u32,
    pub norm: Vec<u32>,
    pub activation: FfnActivation,
}

impl FfnParts {
    /// The weights are those that the file gives for a layer called `layer`.
    pub open spec fn reads(&self, st: &SafeTensors, cfg: &TransformerConfig, layer: Seq<char>) -> bool {
        &&& is_matrix(self.gate_proj, st, layer + "ffn"@ + ".gate_proj"@, cfg.ffn_dim as nat)
        &&& is_matrix(self.up_proj, st, layer + "ffn"@ + ".up_proj"@, cfg.ffn_dim as nat)
        &&& is_matrix(self.down_proj, st, layer + "ffn"@ + ".down_proj"@, cfg.d_model as nat)
        &&& self.gate == scalar_in(st, layer + "ffn_gate"@)
        &&& self.norm@ == vec_in(st, layer + "ffn_norm"@, cfg.d_model as nat)
        &&& self.activation == cfg.activation
    }
}

/// Take the weights of a layer's feed-forward sub-layer out of a file; `layer`
/// is what the names of the layer's tensors start with.
pub fn load_ffn_weights(st: &SafeTensors, cfg: &TransformerConfig, layer: &str) -> (parts: FfnParts)
    ensures
        parts.reads(st, cfg, layer@),
{
    let prefix = joined(layer, "ffn");
    FfnParts {
        gate_proj: load_quant(st, joined(prefix.as_str(), ".gate_proj").as_str(), cfg.ffn_dim),
        up_proj: load_quant(st, joined(prefix.as_str(), ".up_proj").as_str(), cfg.ffn_dim),
        down_proj: load_quant(st, joined(prefix.as_str(), ".down_proj").as_str(), cfg.d_model),
        gate: load_scalar(st, joined(layer, "ffn_gate").as_str()),
        norm: load_vec(st, joined(layer, "ffn_norm").as_str(), cfg.d_model),
        activation: cfg.activation,
    }
}

/// A feed-forward sub-layer, where the model has them.
pub open spec fn reads_ffn(
    ffn: Option<FfnParts>,
    st: &SafeTensors,
    cfg: &TransformerConfig,
    layer: Seq<char>,
) -> bool {
    match ffn {
        Some(f) => !cfg.no_feedforward && f.reads(st, cfg, layer),
        None => cfg.no_feedforward,
    }
}

fn load_ffn(st: &SafeTensors, cfg: &TransformerConfig, layer: &str) -> (ffn: Option<FfnParts>)
    ensures
        reads_ffn(ffn, st, cfg, layer@),
{
    if cfg.no_feedforward {
        None
    } else {
        Some(load_ffn_weights(st, cfg, layer))
    }
}

/// One encoder layer.
#[derive(Debug)]
pub struct EncoderLayerParts {
    pub self_attn: AttnParts,
    pub self_attn_gate: u32,
    pub norm: Vec<u32>,
    pub ffn: Option<FfnParts>,
}

/// One decoder layer.
#[derive(Debug)]
pub struct DecoderLayerParts {
    pub self_attn: AttnParts,
    pub self_attn_gate: u32,
    pub self_attn_norm: Vec<u32>,
    pub cross_attn: AttnParts,
    pub cross_attn_gate: u32,
    pub cross_attn_norm: Vec<u32>,
    pub ffn: Option<FfnParts>,
}

impl EncoderLayerParts {
    /// The layer is the `i`-th encoder layer of the file.
    pub open spec fn reads(&self, st: &SafeTensors, cfg: &TransformerConfig, i: nat) -> bool {
        let d = cfg.d_model as nat;
        &&& self.self_attn.reads(st, cfg, encoder_tensor_name(i, "self_attn"@))
        &&& self.self_attn_gate == scalar_in(st, encoder_tensor_name(i, "self_attn_gate"@))
        &&& self.norm@ == vec_in(st, encoder_tensor_name(i, "norm"@), d)
        &&& reads_ffn(self.ffn, st, cfg, encoder_tensor_name(i, ""@))
    }
}

impl DecoderLayerParts {
    /// The layer is the `i`-th decoder layer of the file.
    pub open spec fn reads(&self, st: &SafeTensors, cfg: &TransformerConfig, i: nat) -> bool {
        let d = cfg.d_model as nat;
        &&& self.self_attn.reads(st, cfg, decoder_tensor_name(i, "self_attn"@))
        &&& self.self_attn_gate == scalar_in(st, decoder_tensor_name(i, "self_attn_gate"@))
        &&& self.self_attn_norm@ == vec_in(st, decoder_tensor_name(i, "self_attn_norm"@), d)
        &&& self.cross_attn.reads(st, cfg, decoder_tensor_name(i, "cross_attn"@))
        &&& self.cross_attn_gate == scalar_in(st, decoder_tensor_name(i, "cross_attn_gate"@))
        &&& self.cross_attn_norm@ == vec_in(st, decoder_tensor_name(i, "cross_attn_norm"@), d)
        &&& reads_ffn(self.ffn, st, cfg, decoder_tensor_name(i, ""@))
    }
}

/// Take encoder layer `i` out of a file.
pub fn load_encoder_layer(st: &SafeTensors, cfg: &TransformerConfig, i: usize) -> (layer:
    EncoderLayerParts)
    requires
        cfg.fault() is None,
    ensures
        layer.reads(st, cfg, i as nat),
{
    let self_attn = load_attn_weights(st, cfg, encoder_tensor(i, "self_attn").as_str());
    EncoderLayerParts {
        self_attn,
        self_attn_gate: load_scalar(st, encoder_tensor(i, "self_attn_gate").as_str()),
        norm: load_vec(st, encoder_tensor(i, "norm").as_str(), cfg.d_model),
        ffn: load_ffn(st, cfg, encoder_tensor(i, "").as_str()),
    }
}

/// Take decoder layer `i` out of a file.
pub fn load_decoder_layer(st: &SafeTensors, cfg: &TransformerConfig, i: usize) -> (layer:
    DecoderLayerParts)
    requires
        cfg.fault() is None,
    ensures
        layer.reads(st, cfg, i as nat),
{
    DecoderLayerParts {
        self_attn: load_attn_weights(st, cfg, decoder_tensor(i, "self_attn").as_str()),
        self_attn_gate: load_scalar(st, decoder_tensor(i, "self_attn_gate").as_str()),
        self_attn_norm: load_vec(st, decoder_tensor(i, "self_attn_norm").as_str(), cfg.d_model),
        cross_attn: load_attn_weights(st, cfg, decoder_tensor(i, "cross_attn").as_str()),
        cross_attn_gate: load_scalar(st, decoder_tensor(i, "cross_attn_gate").as_str()),
        cross_attn_norm: load_vec(st, decoder_tensor(i, "cross_attn_norm").as_str(), cfg.d_model),
        ffn: load_ffn(st, cfg, decoder_tensor(i, "").as_str()),
    }
}

/// A contrastive head: two layers that turn an encoding into an embedding.
#[derive(Debug)]
pub struct ContrastiveParts {
    pub hidden_kernel: Vec<u32>,
    pub hidden_bias: Vec<u32>,
    pub proj_kernel: Vec<u32>,
    pub hidden_dim: usize,
    pub contrastive_dim: usize,
}

/// The head that a file gives, if it gives one whose sizes fit together.
pub open spec fn reads_contrastive(
    head: Option<ContrastiveParts>,
    st: &SafeTensors,
    d_model: nat,
) -> bool {
    let proj = values_in(st, "contrastive_proj_kernel"@);
    let hidden = values_in(st, "contrastive_hidden_kernel"@);
    let bias = values_in(st, "contrastive_hidden_bias"@);
    if proj is Some && hidden is Some && bias is Some {
        let width = contrastive_width(
            hidden->0.len(),
            bias->0.len(),
            proj->0.len(),
            d_model,
        );
        match head {
            Some(h) => {
                &&& width == Some(h.contrastive_dim as nat)
                &&& h.proj_kernel@ == proj->0
                &&& h.hidden_kernel@ == hidden->0
                &&& h.hidden_bias@ == bias->0
                &&& h.hidden_dim == bias->0.len()
            },
            None => width is None,
        }
    } else {
        head is None
    }
}

/// Take the contrastive head out of a file, if there is one that fits.
pub fn load_contrastive_head(st: &SafeTensors, d_model: usize) -> (head: Option<ContrastiveParts>)
    ensures
        reads_contrastive(head, st, d_model as nat),
{
    let proj_kernel = match get_values(st, "contrastive_proj_kernel") {
        Some(v) => v,
        None => {
            return None;
        },
    };
    let hidden_kernel = match get_values(st, "contrastive_hidden_kernel") {
        Some(v) => v,
        None => {
            return None;
        },
    };
    let hidden_bias = match get_values(st, "contrastive_hidden_bias") {
        Some(v) => v,
        None => {
            return None;
        },
    };
    let hidden_dim: usize = hidden_bias.len();
    match contrastive_dim(hidden_kernel.len(), hidden_dim, proj_kernel.len(), d_model) {
        Some(contrastive_dim) => Some(
            ContrastiveParts { hidden_kernel, hidden_bias, proj_kernel, hidden_dim, contrastive_dim },
        ),
        None => None,
    }
}

/// A model's weights.
#[derive(Debug)]
pub struct ModelParts {
    pub embedding: Vec<u32>,
    pub encoder_layers: Vec<EncoderLayerParts>,
    pub decoder_layers: Vec<DecoderLayerParts>,
    pub encoder_final_norm: Vec<u32>,
    pub decoder_final_norm: Vec<u32>,
}

impl ModelParts {
    /// The weights are those that the file gives.
    pub open spec fn reads(&self, st: &SafeTensors, cfg: &TransformerConfig) -> bool {
        let d = cfg.d_model as nat;
        &&& values_in(st, "embedding"@) == Some(self.embedding@)
        &&& self.encoder_layers@.len() == cfg.num_layers
        &&& forall|i: int|
            0 <= i < cfg.num_layers ==> (#[trigger] self.encoder_layers@[i]).reads(
                st,
                cfg,
                i as nat,
            )
        &&& self.decoder_layers@.len() == cfg.num_dec_layers
        &&& forall|i: int|
            0 <= i < cfg.num_dec_layers ==> (#[trigger] self.decoder_layers@[i]).reads(
                st,
                cfg,
                i as nat,
            )
        &&& self.encoder_final_norm@ == vec_in(st, "encoder_final_norm"@, d)
        &&& self.decoder_final_norm@ == vec_in(st, "decoder_final_norm"@, d)
    }
}

/// The number of values of the embedding tensor, where the file has one.
pub open spec fn embedding_len(st: &SafeTensors) -> Option<usize> {
    match values_in(st, "embedding"@) {
        Some(v) => Some(v.len() as usize),
        None => None,
    }
}

/// Take a model's weights out of a file.
pub fn load_model(st: &SafeTensors, cfg: &TransformerConfig) -> (parts: Result<
    ModelParts,
    LoadError,
>)
    requires
        cfg.vocab_size * cfg.d_model <= usize::MAX,
    ensures
        match parts {
            Ok(p) => load_fault(*cfg, embedding_len(st)) is None && p.reads(st, cfg),
            Err(e) => load_fault(*cfg, embedding_len(st)) == Some(e),
        },
{
    let found = get_values(st, "embedding");
    let len: Option<usize> = match &found {
        Some(v) => Some(v.len()),
        None => None,
    };
    match check_model(cfg, len) {
        Ok(_) => {},
        Err(e) => {
            return Err(e);
        },
    }
    let embedding: Vec<u32> = match found {
        Some(v) => v,
        None => Vec::new(),
    };
    let mut encoder_layers: Vec<EncoderLayerParts> = Vec::new();
    let mut i: usize = 0;
    while i < cfg.num_layers
        invariant
            i <= cfg.num_layers,
            cfg.fault() is None,
            encoder_layers@.len() == i,
            forall|k: int|
                0 <= k < i ==> (#[trigger] encoder_layers@[k]).reads(st, cfg, k as nat),
        decreases cfg.num_layers - i,
    {
        encoder_layers.push(load_encoder_layer(st, cfg, i));
        i = i + 1;
    }
    let mut decoder_layers: Vec<DecoderLayerParts> = Vec::new();
    let mut j: usize = 0;
    while j < cfg.num_dec_layers
        invariant
            j <= cfg.num_dec_layers,
            cfg.fault() is None,
            decoder_layers@.len() == j,
            forall|k: int|
                0 <= k < j ==> (#[trigger] decoder_layers@[k]).reads(st, cfg, k as nat),
        decreases cfg.num_dec_layers - j,
    {
        decoder_layers.push(load_decoder_layer(st, cfg, j));
        j = j + 1;
    }
    let encoder_final_norm = load_vec(st, "encoder_final_norm", cfg.d_model);
    let decoder_final_norm = load_vec(st, "decoder_final_norm", cfg.d_model);
    Ok(
        ModelParts {
            embedding,
            encoder_layers,
            decoder_layers,
            encoder_final_norm,
            decoder_final_norm,
        },
    )
}

/// A packed matrix has as many groups as its scales make up columns.
pub proof fn the_scales_fill_the_groups(
    q: QuantSource,
    st: &SafeTensors,
    name: Seq<char>,
    out_feat: nat,
)
    requires
        is_matrix(q, st, name, out_feat),
    ensures
        q matches QuantSource::Packed { data, scales, num_groups } ==> out_feat > 0 && num_groups
            * out_feat == scales@.len() && st.raw(name) == Some(data@),
        q is Missing ==> st.values(name) is None,
        q matches QuantSource::Dense { values } ==> st.values(name) is Some && values@.len()
            == st.values(name)->0.len(),
{
    if let QuantSource::Packed { data, scales, num_groups } = q {
        let n = scales@.len() as int;
        let o = out_feat as int;
        vstd::arithmetic::div_mod::lemma_fundamental_div_mod(n, o);
        assert((n / o) * o == o * (n / o)) by (nonlinear_arith);
    }
}

/// A vector is what the file holds under its name, number by number, and zeros
/// of the expected length where it holds nothing; a single number is the first
/// one there, and zero where there is none.
pub proof fn a_missing_tensor_reads_as_zeros(
    st: &SafeTensors,
    name: Seq<char>,
    len: nat,
    i: int,
)
    ensures
        st.values(name) is None ==> {
            &&& vec_in(st, name, len).len() == len
            &&& 0 <= i < len ==> vec_in(st, name, len)[i] == 0
            &&& scalar_in(st, name) == 0
        },
        st.values(name) is Some ==> {
            let v = st.values(name)->0;
            &&& vec_in(st, name, len).len() == v.len()
            &&& 0 <= i < v.len() ==> vec_in(st, name, len)[i] == v[i] as u32
            &&& v.len() > 0 ==> scalar_in(st, name) == v[0] as u32
            &&& v.len() == 0 ==> scalar_in(st, name) == 0
        },
{
}

/// The parts of an encoder layer are the tensors of its own number.
pub proof fn an_encoder_layer_has_its_own_tensors(
    l: EncoderLayerParts,
    st: &SafeTensors,
    cfg: &TransformerConfig,
    i: nat,
)
    requires
        l.reads(st, cfg, i),
    ensures
        ({
            let at = "encoder."@ + decimal(i);
            let d = cfg.d_model as nat;
            let hd = cfg.d_model as nat / cfg.num_heads as nat;
            &&& is_matrix(l.self_attn.wq, st, at + ".self_attn.wq"@, cfg.num_heads as nat * hd)
            &&& is_matrix(l.self_attn.wk, st, at + ".self_attn.wk"@, cfg.num_kv_heads as nat * hd)
            &&& is_matrix(l.self_attn.wv, st, at + ".self_attn.wv"@, cfg.num_kv_heads as nat * hd)
            &&& is_matrix(l.self_attn.wo, st, at + ".self_attn.wo"@, d)
            &&& l.self_attn.q_norm@ == vec_in(st, at + ".self_attn.q_norm"@, hd)
            &&& l.self_attn.k_norm@ == vec_in(st, at + ".self_attn.k_norm"@, hd)
            &&& l.self_attn_gate == scalar_in(st, at + ".self_attn_gate"@)
            &&& l.norm@ == vec_in(st, at + ".norm"@, d)
            &&& l.ffn is None <==> cfg.no_feedforward
            &&& l.ffn is Some ==> {
                let f = l.ffn->0;
                &&& is_matrix(f.gate_proj, st, at + ".ffn.gate_proj"@, cfg.ffn_dim as nat)
                &&& is_matrix(f.up_proj, st, at + ".ffn.up_proj"@, cfg.ffn_dim as nat)
                &&& is_matrix(f.down_proj, st, at + ".ffn.down_proj"@, d)
                &&& f.gate == scalar_in(st, at + ".ffn_gate"@)
                &&& f.norm@ == vec_in(st, at + ".ffn_norm"@, d)
            }
        }),
{
    let at = "encoder."@ + decimal(i);
    lemma_strings();
    let attn = encoder_tensor_name(i, "self_attn"@);
    assert(attn + ".wq"@ =~= at + ".self_attn.wq"@);
    assert(attn + ".wk"@ =~= at + ".self_attn.wk"@);
    assert(attn + ".wv"@ =~= at + ".self_attn.wv"@);
    assert(attn + ".wo"@ =~= at + ".self_attn.wo"@);
    assert(attn + ".q_norm"@ =~= at + ".self_attn.q_norm"@);
    assert(attn + ".k_norm"@ =~= at + ".self_attn.k_norm"@);
    assert(encoder_tensor_name(i, "self_attn_gate"@) =~= at + ".self_attn_gate"@);
    assert(encoder_tensor_name(i, "norm"@) =~= at + ".norm"@);
    let layer = encoder_tensor_name(i, ""@);
    assert(layer + "ffn"@ + ".gate_proj"@ =~= at + ".ffn.gate_proj"@);
    assert(layer + "ffn"@ + ".up_proj"@ =~= at + ".ffn.up_proj"@);
    assert(layer + "ffn"@ + ".down_proj"@ =~= at + ".ffn.down_proj"@);
    assert(layer + "ffn_gate"@ =~= at + ".ffn_gate"@);
    assert(layer + "ffn_norm"@ =~= at + ".ffn_norm"@);
}

proof fn lemma_strings()
    ensures
        "."@ + "self_attn"@ + ".wq"@ == ".self_attn.wq"@,
        "."@ + "self_attn"@ + ".wk"@ == ".self_attn.wk"@,
        "."@ + "self_attn"@ + ".wv"@ == ".self_attn.wv"@,
        "."@ + "self_attn"@ + ".wo"@ == ".self_attn.wo"@,
        "."@ + "self_attn"@ + ".q_norm"@ == ".self_attn.q_norm"@,
        "."@ + "self_attn"@ + ".k_norm"@ == ".self_attn.k_norm"@,
        "."@ + "self_attn_gate"@ == ".self_attn_gate"@,
        "."@ + "norm"@ == ".norm"@,
        "."@ + ""@ + "ffn"@ + ".gate_proj"@ == ".ffn.gate_proj"@,
        "."@ + ""@ + "ffn"@ + ".up_proj"@ == ".ffn.up_proj"@,
        "."@ + ""@ + "ffn"@ + ".down_proj"@ == ".ffn.down_proj"@,
        "."@ + ""@ + "ffn_gate"@ == ".ffn_gate"@,
        "."@ + ""@ + "ffn_norm"@ == ".ffn_norm"@,
{
    reveal_strlit(".");
    reveal_strlit("");
    reveal_strlit("self_attn");
    reveal_strlit(".wq");
    reveal_strlit(".wk");
    reveal_strlit(".wv");
    reveal_strlit(".wo");
    reveal_strlit(".q_norm");
    reveal_strlit(".k_norm");
    reveal_strlit("self_attn_gate");
    reveal_strlit("norm");
    reveal_strlit("ffn");
    reveal_strlit(".gate_proj");
    reveal_strlit(".up_proj");
    reveal_strlit(".down_proj");
    reveal_strlit("ffn_gate");
    reveal_strlit("ffn_norm");
    reveal_strlit(".self_attn.wq");
    reveal_strlit(".self_attn.wk");
    reveal_strlit(".self_attn.wv");
    reveal_strlit(".self_attn.wo");
    reveal_strlit(".self_attn.q_norm");
    reveal_strlit(".self_attn.k_norm");
    reveal_strlit(".self_attn_gate");
    reveal_strlit(".norm");
    reveal_strlit(".ffn.gate_proj");
    reveal_strlit(".ffn.up_proj");
    reveal_strlit(".ffn.down_proj");
    reveal_strlit(".ffn_gate");
    reveal_strlit(".ffn_norm");
    assert("."@ + "self_attn"@ + ".wq"@ =~= ".self_attn.wq"@);
    assert("."@ + "self_attn"@ + ".wk"@ =~= ".self_attn.wk"@);
    assert("."@ + "self_attn"@ + ".wv"@ =~= ".self_attn.wv"@);
    assert("."@ + "self_attn"@ + ".wo"@ =~= ".self_attn.wo"@);
    assert("."@ + "self_attn"@ + ".q_norm"@ =~= ".self_attn.q_norm"@);
    assert("."@ + "self_attn"@ + ".k_norm"@ =~= ".self_attn.k_norm"@);
    assert("."@ + "self_attn_gate"@ =~= ".self_attn_gate"@);
    assert("."@ + "norm"@ =~= ".norm"@);
    assert("."@ + ""@ + "ffn"@ + ".gate_proj"@ =~= ".ffn.gate_proj"@);
    assert("."@ + ""@ + "ffn"@ + ".up_proj"@ =~= ".ffn.up_proj"@);
    assert("."@ + ""@ + "ffn"@ + ".down_proj"@ =~= ".ffn.down_proj"@);
    assert("."@ + ""@ + "ffn_gate"@ =~= ".ffn_gate"@);
    assert("."@ + ""@ + "ffn_norm"@ =~= ".ffn_norm"@);
}

} // verus!
