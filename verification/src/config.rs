//! The configuration of a model, read from its `config.json`.
//!
//! Whole numbers, texts and lists are read here. Where the configuration has
//! fractions, [`cfg_numbers`] hands them out as they are written, and the caller
//! gives back what it made of them in [`CfgFloats`].

use vstd::prelude::*;
use vstd::string::*;

use crate::json::{
    as_array_spec, as_i64_spec, as_text_spec, as_u64_spec, json_parsed, member, read_json, Json,
    JsonView,
};
use crate::settings::{number_or, Settings};
use crate::text::same_text;

verus! {

/// How the output of a layer is gated.
#[derive(Clone, Copy, Debug, PartialEq, Eq, Structural)]
pub enum OutputGate {
    Silu,
    Sigmoid,
}

/// The name of the output activation that a configuration asks for.
pub open spec fn gate_name(v: JsonView) -> Seq<char> {
    match as_text_spec(member(v, "output_gate_type"@)) {
        Some(s) => s,
        None => match as_text_spec(member(v, "hidden_act"@)) {
            Some(s) => s,
            None => "silu"@,
        },
    }
}

impl OutputGate {
    /// The activation of a name.
    pub open spec fn named(name: Seq<char>) -> Option<OutputGate> {
        if name == "silu"@ {
            Some(OutputGate::Silu)
        } else if name == "sigmoid"@ {
            Some(OutputGate::Sigmoid)
        } else {
            None
        }
    }

    /// The number by which a device kernel knows the activation.
    pub fn gdn_metal_code(self) -> (r: i32)
        ensures
            r == (match self {
                OutputGate::Silu => 0int,
                OutputGate::Sigmoid => 1,
            }),
    {
        match self {
            OutputGate::Silu => 0,
            OutputGate::Sigmoid => 1,
        }
    }

    /// The activation that a configuration asks for, or the name it has where there is
    /// no such activation.
    pub fn from_config(v: &Json) -> (r: Result<OutputGate, CfgFault>)
        ensures
            match r {
                Ok(g) => OutputGate::named(gate_name(v@)) == Some(g),
                Err(e) => OutputGate::named(gate_name(v@)) is None && (e matches CfgFault::Gate {
                    name,
                } && name@ == gate_name(v@)),
            },
    {
        proof {
            reveal_strlit("silu");
            reveal_strlit("sigmoid");
            assert("silu"@.len() != "sigmoid"@.len());
        }
        let name: &str = match v.get_str("output_gate_type") {
            Some(s) => s,
            None => match v.get_str("hidden_act") {
                Some(s) => s,
                None => "silu",
            },
        };
        if same_text(name, "silu") {
            Ok(OutputGate::Silu)
        } else if same_text(name, "sigmoid") {
            Ok(OutputGate::Sigmoid)
        } else {
            Err(CfgFault::Gate { name: String::from_str(name) })
        }
    }
}

/// Why a configuration cannot be used.
#[derive(Debug)]
pub enum CfgFault {
    /// The file is no JSON.
    NotJson,
    /// No gate has this name.
    Gate { name: String },
    /// There are more n-gram heads than can be counted.
    NgramHeads,
    /// The list of layer kinds has another length than there are layers.
    LayerTypes { listed: usize, layers: usize },
}

/// A number as a configuration writes it.
#[derive(Clone, Copy, Debug, PartialEq, Eq, Structural)]
pub enum Number {
    Whole(u64),
    Negative(i64),
    /// The pattern of a double.
    Double(u64),
}

/// The number a value is, if it is one.
pub open spec fn number_spec(v: Option<JsonView>) -> Option<Number> {
    match v {
        Some(JsonView::Unsigned(n)) => Some(Number::Whole(n)),
        Some(JsonView::Negative(n)) => Some(Number::Negative(n)),
        Some(JsonView::Double(d)) => Some(Number::Double(d)),
        _ => None,
    }
}

/// The numbers of a configuration that need not be whole.
pub struct CfgNumbers {
    /// `rope_theta` of the rope parameters.
    pub rope_theta: Option<Number>,
    /// `rope_theta` of the configuration itself.
    pub flat_rope_theta: Option<Number>,
    pub partial_rotary_factor: Option<Number>,
    pub rms_norm_eps: Option<Number>,
    pub head_dim: usize,
}

/// What the caller makes of those numbers: the patterns of two singles, and how
/// much of a head is rotated.
#[derive(Clone, Copy, Debug)]
pub struct CfgFloats {
    pub theta: u32,
    pub eps: u32,
    pub rotary_dim: usize,
}

/// The configuration of a model. `theta` and `eps` are patterns of singles.
#[derive(Debug)]
pub struct Cfg {
    pub hidden: usize,
    pub layers: usize,
    pub heads: usize,
    pub kv_heads: usize,
    pub head_dim: usize,
    pub rotary_dim: usize,
    pub theta: u32,
    pub experts: usize,
    pub topk: usize,
    pub moe_inter: usize,
    pub shared_inter: usize,
    pub lin_k_heads: usize,
    pub lin_k_dim: usize,
    pub lin_v_heads: usize,
    pub lin_v_dim: usize,
    pub conv_kernel: usize,
    pub max_t: usize,
    pub vocab: usize,
    pub eps: u32,
    pub output_gate: OutputGate,
    pub gdn_layers: Vec<bool>,
    pub qsa_layers: Vec<bool>,
    pub hc_count: usize,
    pub hc_lowrank: usize,
    pub idx_n_heads: usize,
    pub idx_kv_heads: usize,
    pub idx_head_dim: usize,
    pub idx_budget: usize,
    pub idx_ratio: usize,
    pub ple_layer: i64,
    pub ple_embed_dim: usize,
    pub ple_conv_kernel: usize,
    pub ngram_size: usize,
    pub ngram_heads: usize,
    pub ngram_vocab_base: i64,
    pub ngram_div: i64,
    pub seed: u64,
    pub eos: i64,
}

/// The part of a document that configures the text model: its `text_config`
/// where it has one, else all of it.
pub open spec fn text_part(v: JsonView) -> JsonView {
    match member(v, "text_config"@) {
        Some(JsonView::Object(o)) => JsonView::Object(o),
        _ => v,
    }
}

/// A count of the configuration, zero where there is none.
pub open spec fn count(v: JsonView, name: Seq<char>) -> usize {
    match as_u64_spec(member(v, name)) {
        Some(n) => n as usize,
        None => 0,
    }
}

/// A signed number of the configuration.
pub open spec fn whole(v: JsonView, name: Seq<char>, default: i64) -> i64 {
    match as_i64_spec(member(v, name)) {
        Some(n) => n,
        None => default,
    }
}

/// The larger of two counts.
pub open spec fn most(a: usize, b: usize) -> usize {
    if a >= b {
        a
    } else {
        b
    }
}

/// The smaller of two counts.
pub open spec fn least(a: usize, b: usize) -> usize {
    if a <= b {
        a
    } else {
        b
    }
}

/// The width of a head: what is configured, but no less than an even share of
/// the hidden width.
pub open spec fn head_width(v: JsonView) -> usize {
    most(
        count(v, "head_dim"@),
        (count(v, "hidden_size"@) as int / most(count(v, "num_attention_heads"@), 1) as int) as usize,
    )
}

/// The kinds of the layers, as listed.
pub open spec fn layer_kinds(v: JsonView) -> Seq<JsonView> {
    match as_array_spec(member(v, "layer_types"@)) {
        Some(a) => a,
        None => Seq::empty(),
    }
}

/// Which layers are of a kind.
pub open spec fn of_kind(v: JsonView, kind: Seq<char>, wanted: bool) -> Seq<bool> {
    Seq::new(
        layer_kinds(v).len(),
        |i: int| wanted && as_text_spec(Some(layer_kinds(v)[i])) == Some(kind),
    )
}

/// How many n-gram heads there are.
pub open spec fn ngram_head_count(v: JsonView) -> int {
    if count(v, "ngram_size"@) > 1 {
        count(v, "heads_per_ngram"@) * (count(v, "ngram_size"@) - 1)
    } else {
        0
    }
}

/// The layer with the n-gram memory, if there is one.
pub open spec fn memory_layer(v: JsonView) -> i64 {
    match as_array_spec(member(v, "ple_layer_ids"@)) {
        Some(a) => if a.len() > 0 {
            match as_i64_spec(Some(a[0])) {
                Some(n) => n,
                None => -1i64,
            }
        } else {
            -1i64
        },
        None => -1i64,
    }
}

/// Whether a configuration is what a document says, under the context length
/// asked for and with the fractions made of it.
pub open spec fn configures(c: Cfg, v: JsonView, ctx: Option<Seq<char>>, f: CfgFloats) -> bool {
    &&& c.hidden == count(v, "hidden_size"@)
    &&& c.layers == count(v, "num_hidden_layers"@)
    &&& c.heads == count(v, "num_attention_heads"@)
    &&& c.kv_heads == count(v, "num_key_value_heads"@)
    &&& c.head_dim == head_width(v)
    &&& c.rotary_dim == f.rotary_dim
    &&& c.theta == f.theta
    &&& c.experts == count(v, "num_experts"@)
    &&& c.topk == count(v, "num_experts_per_tok"@)
    &&& c.moe_inter == count(v, "moe_intermediate_size"@)
    &&& c.shared_inter == count(v, "shared_expert_intermediate_size"@)
    &&& c.lin_k_heads == count(v, "linear_num_key_heads"@)
    &&& c.lin_k_dim == count(v, "linear_key_head_dim"@)
    &&& c.lin_v_heads == count(v, "linear_num_value_heads"@)
    &&& c.lin_v_dim == count(v, "linear_value_head_dim"@)
    &&& c.conv_kernel == count(v, "linear_conv_kernel_dim"@)
    &&& c.max_t == least(number_or(ctx, 65536), most(count(v, "max_position_embeddings"@), 1))
    &&& c.vocab == count(v, "vocab_size"@)
    &&& c.eps == f.eps
    &&& OutputGate::named(gate_name(v)) == Some(c.output_gate)
    &&& c.gdn_layers@ == of_kind(v, "linear_attention"@, true)
    &&& c.qsa_layers@ == of_kind(v, "full_attention"@, count(v, "indexer_n_heads"@) > 0)
    &&& c.hc_count == count(v, "hc_count"@)
    &&& c.hc_lowrank == count(v, "hc_lowrank"@)
    &&& c.idx_n_heads == count(v, "indexer_n_heads"@)
    &&& c.idx_kv_heads == count(v, "indexer_kv_heads"@)
    &&& c.idx_head_dim == count(v, "indexer_head_dim"@)
    &&& c.idx_budget == count(v, "indexer_budget"@)
    &&& c.idx_ratio == count(v, "indexer_compress_ratio"@)
    &&& c.ple_layer == memory_layer(v)
    &&& c.ple_embed_dim == count(v, "ple_embed_dim"@)
    &&& c.ple_conv_kernel == count(v, "ple_conv_kernel_size"@)
    &&& c.ngram_size == count(v, "ngram_size"@)
    &&& c.ngram_heads == ngram_head_count(v)
    &&& c.ngram_vocab_base == whole(v, "ngram_vocab_size_base"@, 0)
    &&& c.ngram_div == whole(v, "make_ngram_vocab_size_divisible_by"@, 1)
    &&& c.seed == (match as_u64_spec(member(v, "seed"@)) {
        Some(n) => n,
        None => 0,
    })
    &&& c.eos == whole(v, "eos_token_id"@, -1i64)
    &&& c.layers == c.gdn_layers@.len()
}

/// No layer is of both kinds.
pub proof fn law_layer_kinds_are_disjoint(c: Cfg, v: JsonView, ctx: Option<Seq<char>>, f: CfgFloats, l: int)
    requires
        configures(c, v, ctx, f),
        0 <= l < c.layers,
    ensures
        c.qsa_layers@.len() == c.layers,
        !(c.gdn_layers@[l] && c.qsa_layers@[l]),
{
    reveal_strlit("linear_attention");
    reveal_strlit("full_attention");
    assert("linear_attention"@.len() != "full_attention"@.len());
}

/// A count of the configuration.
fn read_count(v: &Json, name: &str) -> (r: usize)
    ensures
        r == count(v@, name@),
{
    match v.get_u64(name) {
        Some(n) => n as usize,
        None => 0,
    }
}

/// A signed number of the configuration.
fn read_whole(v: &Json, name: &str, default: i64) -> (r: i64)
    ensures
        r == whole(v@, name@, default),
{
    match v.get_i64(name) {
        Some(n) => n,
        None => default,
    }
}

fn larger(a: usize, b: usize) -> (r: usize)
    ensures
        r == most(a, b),
{
    if a >= b {
        a
    } else {
        b
    }
}

/// Which layers are of a kind.
fn read_kinds(v: &Json, kind: &str, wanted: bool) -> (r: Vec<bool>)
    ensures
        r@ == of_kind(v@, kind@, wanted),
{
    let mut out: Vec<bool> = Vec::new();
    match v.get_array("layer_types") {
        None => {},
        Some(a) => {
            let ghost all = layer_kinds(v@);
            let mut i: usize = 0;
            while i < a.len()
                invariant
                    i <= a.len(),
                    all == layer_kinds(v@),
                    all == Seq::new(a@.len(), |i: int| a@[i]@),
                    out@.len() == i,
                    forall|k: int|
                        0 <= k < i ==> #[trigger] out@[k] == (wanted && as_text_spec(Some(all[k]))
                            == Some(kind@)),
                decreases a.len() - i,
            {
                let same: bool = match a[i].as_str() {
                    Some(s) => same_text(s, kind),
                    None => false,
                };
                out.push(wanted && same);
                i = i + 1;
            }
        },
    }
    assert(out@ =~= of_kind(v@, kind@, wanted));
    out
}

/// The layer with the n-gram memory.
fn read_memory_layer(v: &Json) -> (r: i64)
    ensures
        r == memory_layer(v@),
{
    match v.get_array("ple_layer_ids") {
        None => -1,
        Some(a) => if a.len() > 0 {
            match a[0].as_i64() {
                Some(n) => n,
                None => -1,
            }
        } else {
            -1
        },
    }
}

/// The number a value is.
fn read_number(v: Option<&Json>) -> (r: Option<Number>)
    ensures
        r == number_spec(crate::json::seen(v)),
{
    match v {
        Some(Json::Unsigned(n)) => Some(Number::Whole(*n)),
        Some(Json::Negative(n)) => Some(Number::Negative(*n)),
        Some(Json::Double(d)) => Some(Number::Double(*d)),
        _ => None,
    }
}

/// The width of a head.
fn read_head_width(v: &Json) -> (r: usize)
    ensures
        r == head_width(v@),
{
    larger(
        read_count(v, "head_dim"),
        read_count(v, "hidden_size") / larger(read_count(v, "num_attention_heads"), 1),
    )
}

/// The part of a document that configures the text model.
fn text_of(v: &Json) -> (r: &Json)
    ensures
        r@ == text_part(v@),
{
    match v.get("text_config") {
        Some(part) => match part {
            Json::Object(_) => part,
            _ => v,
        },
        None => v,
    }
}

/// A member of a member.
pub open spec fn rope_member(v: JsonView, name: Seq<char>) -> Option<JsonView> {
    match member(v, "rope_parameters"@) {
        Some(r) => member(r, name),
        None => None,
    }
}

/// The numbers of a document that need not be whole.
pub fn cfg_numbers(document: &Json) -> (r: CfgNumbers)
    ensures
        ({
            let v = text_part(document@);
            &&& r.rope_theta == number_spec(rope_member(v, "rope_theta"@))
            &&& r.flat_rope_theta == number_spec(member(v, "rope_theta"@))
            &&& r.partial_rotary_factor == number_spec(rope_member(v, "partial_rotary_factor"@))
            &&& r.rms_norm_eps == number_spec(member(v, "rms_norm_eps"@))
            &&& r.head_dim == head_width(v)
        }),
{
    let v: &Json = text_of(document);
    let (theta, factor) = match v.get("rope_parameters") {
        Some(rope) => (
            read_number(rope.get("rope_theta")),
            read_number(rope.get("partial_rotary_factor")),
        ),
        None => (None, None),
    };
    CfgNumbers {
        rope_theta: theta,
        flat_rope_theta: read_number(v.get("rope_theta")),
        partial_rotary_factor: factor,
        rms_norm_eps: read_number(v.get("rms_norm_eps")),
        head_dim: read_head_width(v),
    }
}

/// The configuration that a document asks for. A gate of another name and a list
/// of kinds of another length than there are layers are refused, in this order.
pub fn cfg_of(document: &Json, settings: &Settings, f: CfgFloats) -> (r: Result<Cfg, CfgFault>)
    requires
        ngram_head_count(text_part(document@)) <= usize::MAX,
    ensures
        ({
            let v = text_part(document@);
            if OutputGate::named(gate_name(v)) is None {
                r matches Err(CfgFault::Gate { name }) && name@ == gate_name(v)
            } else if layer_kinds(v).len() != count(v, "num_hidden_layers"@) {
                r matches Err(CfgFault::LayerTypes { listed, layers }) && listed == layer_kinds(
                    v,
                ).len() && layers == count(v, "num_hidden_layers"@)
            } else {
                r matches Ok(c) && configures(c, v, settings.value("CTX"@), f)
            }
        }),
{
    let v: &Json = text_of(document);
    let gate: OutputGate = match OutputGate::from_config(v) {
        Ok(g) => g,
        Err(e) => {
            return Err(e);
        },
    };
    let ctx: usize = settings.number("CTX", 65536);
    let cfg_max_t: usize = larger(read_count(v, "max_position_embeddings"), 1);
    let idx_n_heads: usize = read_count(v, "indexer_n_heads");
    let ngram_size: usize = read_count(v, "ngram_size");
    let heads_per: usize = read_count(v, "heads_per_ngram");
    let ngram_heads: usize = if ngram_size > 1 {
        heads_per * (ngram_size - 1)
    } else {
        0
    };
    let gdn_layers: Vec<bool> = read_kinds(v, "linear_attention", true);
    let qsa_layers: Vec<bool> = read_kinds(v, "full_attention", idx_n_heads > 0);
    let layers: usize = read_count(v, "num_hidden_layers");
    if layers != gdn_layers.len() {
        return Err(CfgFault::LayerTypes { listed: gdn_layers.len(), layers });
    }
    let seed: u64 = match v.get_u64("seed") {
        Some(n) => n,
        None => 0,
    };
    Ok(
        Cfg {
            hidden: read_count(v, "hidden_size"),
            layers,
            heads: read_count(v, "num_attention_heads"),
            kv_heads: read_count(v, "num_key_value_heads"),
            head_dim: read_head_width(v),
            rotary_dim: f.rotary_dim,
            theta: f.theta,
            experts: read_count(v, "num_experts"),
            topk: read_count(v, "num_experts_per_tok"),
            moe_inter: read_count(v, "moe_intermediate_size"),
            shared_inter: read_count(v, "shared_expert_intermediate_size"),
            lin_k_heads: read_count(v, "linear_num_key_heads"),
            lin_k_dim: read_count(v, "linear_key_head_dim"),
            lin_v_heads: read_count(v, "linear_num_value_heads"),
            lin_v_dim: read_count(v, "linear_value_head_dim"),
            conv_kernel: read_count(v, "linear_conv_kernel_dim"),
            max_t: if ctx <= cfg_max_t {
                ctx
            } else {
                cfg_max_t
            },
            vocab: read_count(v, "vocab_size"),
            eps: f.eps,
            output_gate: gate,
            gdn_layers,
            qsa_layers,
            hc_count: read_count(v, "hc_count"),
            hc_lowrank: read_count(v, "hc_lowrank"),
            idx_n_heads,
            idx_kv_heads: read_count(v, "indexer_kv_heads"),
            idx_head_dim: read_count(v, "indexer_head_dim"),
            idx_budget: read_count(v, "indexer_budget"),
            idx_ratio: read_count(v, "indexer_compress_ratio"),
            ple_layer: read_memory_layer(v),
            ple_embed_dim: read_count(v, "ple_embed_dim"),
            ple_conv_kernel: read_count(v, "ple_conv_kernel_size"),
            ngram_size,
            ngram_heads,
            ngram_vocab_base: read_whole(v, "ngram_vocab_size_base", 0),
            ngram_div: read_whole(v, "make_ngram_vocab_size_divisible_by", 1),
            seed,
            eos: read_whole(v, "eos_token_id", -1),
        },
    )
}

/// The configuration that the bytes of a `config.json` ask for. What is refused,
/// is refused in the order of the cases.
pub fn load_cfg(bytes: &[u8], settings: &Settings, f: CfgFloats) -> (r: Result<Cfg, CfgFault>)
    ensures
        match json_parsed(bytes@) {
            None => r matches Err(CfgFault::NotJson),
            Some(d) => {
                let v = text_part(d);
                if OutputGate::named(gate_name(v)) is None {
                    r matches Err(CfgFault::Gate { name }) && name@ == gate_name(v)
                } else if ngram_head_count(v) > usize::MAX {
                    r matches Err(CfgFault::NgramHeads)
                } else if layer_kinds(v).len() != count(v, "num_hidden_layers"@) {
                    r matches Err(CfgFault::LayerTypes { listed, layers }) && listed == layer_kinds(
                        v,
                    ).len() && layers == count(v, "num_hidden_layers"@)
                } else {
                    r matches Ok(c) && configures(c, v, settings.value("CTX"@), f)
                }
            },
        },
{
    match read_json(bytes) {
        None => Err(CfgFault::NotJson),
        Some(document) => {
            let v: &Json = text_of(&document);
            match OutputGate::from_config(v) {
                Err(e) => {
                    return Err(e);
                },
                Ok(_) => {},
            }
            let ngram_size: usize = read_count(v, "ngram_size");
            let heads_per: usize = read_count(v, "heads_per_ngram");
            if ngram_size > 1 && heads_per.checked_mul(ngram_size - 1).is_none() {
                return Err(CfgFault::NgramHeads);
            }
            cfg_of(&document, settings, f)
        },
    }
}

/// Whether a document says a size under a name: the whole number that stands there, and nothing where none
/// does.
pub open spec fn says(v: JsonView, name: Seq<char>, n: usize) -> bool {
    match member(v, name) {
        Some(JsonView::Unsigned(m)) => m <= usize::MAX ==> n == m,
        _ => n == 0,
    }
}

/// Every size of a model is what the document says under the name that it has there.
pub proof fn law_every_size_is_read_under_its_name(c: Cfg, v: JsonView, ctx: Option<Seq<char>>, f: CfgFloats)
    requires
        configures(c, v, ctx, f),
    ensures
        says(v, "hidden_size"@, c.hidden),
        says(v, "num_hidden_layers"@, c.layers),
        says(v, "num_attention_heads"@, c.heads),
        says(v, "num_key_value_heads"@, c.kv_heads),
        says(v, "num_experts"@, c.experts),
        says(v, "num_experts_per_tok"@, c.topk),
        says(v, "moe_intermediate_size"@, c.moe_inter),
        says(v, "shared_expert_intermediate_size"@, c.shared_inter),
        says(v, "linear_num_key_heads"@, c.lin_k_heads),
        says(v, "linear_key_head_dim"@, c.lin_k_dim),
        says(v, "linear_num_value_heads"@, c.lin_v_heads),
        says(v, "linear_value_head_dim"@, c.lin_v_dim),
        says(v, "linear_conv_kernel_dim"@, c.conv_kernel),
        says(v, "vocab_size"@, c.vocab),
        says(v, "hc_count"@, c.hc_count),
        says(v, "hc_lowrank"@, c.hc_lowrank),
        says(v, "indexer_n_heads"@, c.idx_n_heads),
        says(v, "indexer_kv_heads"@, c.idx_kv_heads),
        says(v, "indexer_head_dim"@, c.idx_head_dim),
        says(v, "indexer_budget"@, c.idx_budget),
        says(v, "indexer_compress_ratio"@, c.idx_ratio),
        says(v, "ple_embed_dim"@, c.ple_embed_dim),
        says(v, "ple_conv_kernel_size"@, c.ple_conv_kernel),
        says(v, "ngram_size"@, c.ngram_size),
{
}

/// What else a document says: a layer is one of linear attention, or sparse, by its kind; the memory is in
/// front of the first layer that is listed for it; the width of a head is what is said, but at least its
/// share of the model; the context is cut to what the model was made for.
pub proof fn law_what_else_a_document_says(
    c: Cfg,
    v: JsonView,
    ctx: Option<Seq<char>>,
    f: CfgFloats,
    l: int,
)
    requires
        configures(c, v, ctx, f),
        0 <= l < c.layers,
    ensures
        ({
            let kinds = as_array_spec(member(v, "layer_types"@));
            let ids = as_array_spec(member(v, "ple_layer_ids"@));
            &&& kinds is Some && (kinds->0).len() == c.layers
            &&& c.gdn_layers@[l] <==> (kinds->0)[l] == JsonView::Text("linear_attention"@)
            &&& c.qsa_layers@[l] <==> c.idx_n_heads > 0 && (kinds->0)[l] == JsonView::Text(
                "full_attention"@,
            )
            &&& (ids is None || (ids->0).len() == 0) ==> c.ple_layer == -1
            &&& ids is Some && (ids->0).len() > 0 && as_i64_spec(Some((ids->0)[0])) is Some
                ==> c.ple_layer == as_i64_spec(Some((ids->0)[0]))->0
            &&& c.heads > 0 ==> c.head_dim >= c.hidden as int / c.heads as int
            &&& c.max_t >= 1 || number_or(ctx, 65536) == 0
            &&& c.max_t <= number_or(ctx, 65536)
            &&& member(v, "max_position_embeddings"@) matches Some(JsonView::Unsigned(m)) ==> (m >= 1
                && m <= usize::MAX ==> c.max_t <= m)
            &&& c.ngram_size > 1 ==> c.ngram_heads % ((c.ngram_size - 1) as usize) == 0
            &&& c.ngram_size <= 1 ==> c.ngram_heads == 0
            &&& member(v, "eos_token_id"@) is None ==> c.eos == -1
            &&& member(v, "make_ngram_vocab_size_divisible_by"@) is None ==> c.ngram_div == 1
            &&& member(v, "ngram_vocab_size_base"@) is None ==> c.ngram_vocab_base == 0
            &&& member(v, "seed"@) matches Some(JsonView::Unsigned(m)) ==> c.seed == m
            &&& as_i64_spec(member(v, "eos_token_id"@)) matches Some(n) ==> c.eos == n
            &&& as_i64_spec(member(v, "ngram_vocab_size_base"@)) matches Some(n)
                ==> c.ngram_vocab_base == n
            &&& as_i64_spec(member(v, "make_ngram_vocab_size_divisible_by"@)) matches Some(n)
                ==> c.ngram_div == n
            &&& c.theta == f.theta && c.eps == f.eps && c.rotary_dim == f.rotary_dim
        }),
{
    if c.ngram_size > 1 {
        let k = (c.ngram_size - 1) as int;
        let h = count(v, "heads_per_ngram"@) as int;
        vstd::arithmetic::div_mod::lemma_mod_multiples_basic(h, k);
    }
    let kinds = layer_kinds(v);
    assert(c.gdn_layers@[l] == (as_text_spec(Some(kinds[l])) == Some("linear_attention"@)));
}

} // verus!
