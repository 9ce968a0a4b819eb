//! The weights of a model: which tensors it has under which names and shapes,
//! and how they are put together from a file of tensors or from the records of
//! a compiled package.

use vstd::prelude::*;
use vstd::string::*;

use crate::bytes::{le, lemma_bases, lemma_le_bound, read_le};
use crate::colisource::{
    embedding_name, embedding_tensor, first_ple_layer, hf_prefix, ple_layer,
};
use crate::config::Cfg;
use crate::ple::{
    can_be_laid_out, lemma_sizes_of_heads, multiplier, offsets_of_heads, pad_rows, padded_rows,
    ple_layout, ple_multipliers, rows_before, sizes_of_heads,
};
use crate::safetensors::{load_spec, StError, StErrorView, StFile, StTensorView};
use crate::text::{decimal, push_decimal, same_text};
use crate::weights::{Wt, WtBytes};

verus! {

/// A tensor that a model has, or a place where it has none.
#[derive(Debug)]
pub enum Slot {
    Absent,
    Vector { name: String, n: usize },
    Matrix { name: String, o: usize, i: usize },
}

/// What a slot says.
pub enum SlotView {
    Absent,
    Vector { name: Seq<char>, n: int },
    Matrix { name: Seq<char>, o: int, i: int },
}

impl View for Slot {
    type V = SlotView;

    open spec fn view(&self) -> SlotView {
        match self {
            Slot::Absent => SlotView::Absent,
            Slot::Vector { name, n } => SlotView::Vector { name: name@, n: *n as int },
            Slot::Matrix { name, o, i } => SlotView::Matrix {
                name: name@,
                o: *o as int,
                i: *i as int,
            },
        }
    }
}

/// The views of slots.
pub open spec fn slot_views(v: Seq<Slot>) -> Seq<SlotView> {
    v.map_values(|s: Slot| s@)
}

/// The elements of a tensor: patterns of singles, or bfloat16 bytes.
#[derive(Debug)]
pub enum Tensor {
    Singles(Vec<u32>),
    Brain(Vec<u8>),
}

/// What a tensor holds.
pub enum TensorHolds {
    Singles(Seq<u32>),
    Brain(Seq<u8>),
}

impl View for Tensor {
    type V = TensorHolds;

    open spec fn view(&self) -> TensorHolds {
        match self {
            Tensor::Singles(v) => TensorHolds::Singles(v@),
            Tensor::Brain(b) => TensorHolds::Brain(b@),
        }
    }
}

/// The views of tensors.
pub open spec fn tensor_list(v: Seq<Tensor>) -> Seq<TensorHolds> {
    v.map_values(|t: Tensor| t@)
}

/// The width of what the convolution of a linear-attention layer runs over.
pub open spec fn conv_width(c: Cfg) -> int {
    c.lin_k_dim * c.lin_k_heads * 2 + c.lin_v_dim * c.lin_v_heads
}

/// The width of the values of a linear-attention layer.
pub open spec fn value_width(c: Cfg) -> int {
    c.lin_v_dim * c.lin_v_heads
}

/// The width of all lanes together.
pub open spec fn lane_width(c: Cfg) -> int {
    c.hc_count * c.hidden
}

/// All widths that the tensors of a model have can be counted.
pub open spec fn widths_fit(c: Cfg) -> bool {
    &&& c.lin_k_dim * c.lin_k_heads <= usize::MAX
    &&& c.lin_k_dim * c.lin_k_heads * 2 <= usize::MAX
    &&& conv_width(c) <= usize::MAX
    &&& value_width(c) <= usize::MAX
    &&& conv_width(c) * c.conv_kernel <= usize::MAX
    &&& 2 * c.heads <= usize::MAX
    &&& 2 * c.heads * c.head_dim <= usize::MAX
    &&& c.heads * c.head_dim <= usize::MAX
    &&& c.kv_heads * c.head_dim <= usize::MAX
    &&& c.idx_n_heads * c.idx_head_dim <= usize::MAX
    &&& c.idx_kv_heads * c.idx_head_dim <= usize::MAX
    &&& c.idx_n_heads * c.idx_head_dim + c.idx_kv_heads * c.idx_head_dim <= usize::MAX
    &&& lane_width(c) <= usize::MAX
    &&& lane_width(c) * c.ple_conv_kernel <= usize::MAX
    &&& 2 * c.moe_inter <= usize::MAX
    &&& c.moe_inter * c.hidden <= usize::MAX
}

/// The width of what the convolution of a linear-attention layer runs over.
pub fn cdim_total(c: &Cfg) -> (r: usize)
    requires
        c.lin_k_dim * c.lin_k_heads <= usize::MAX,
        c.lin_k_dim * c.lin_k_heads * 2 <= usize::MAX,
        value_width(*c) <= usize::MAX,
        conv_width(*c) <= usize::MAX,
    ensures
        r == conv_width(*c),
{
    c.lin_k_dim * c.lin_k_heads * 2 + c.lin_v_dim * c.lin_v_heads
}

/// A vector of a layer, if the layer has it.
pub open spec fn vector_slot(present: bool, at: Seq<char>, name: Seq<char>, n: int) -> SlotView {
    if present {
        SlotView::Vector { name: at + name, n }
    } else {
        SlotView::Absent
    }
}

/// A matrix of a layer, if the layer has it.
pub open spec fn matrix_slot(present: bool, at: Seq<char>, name: Seq<char>, o: int, i: int) -> SlotView {
    if present {
        SlotView::Matrix { name: at + name, o, i }
    } else {
        SlotView::Absent
    }
}

/// How many slots a layer has.
pub const LAYER_SLOTS: usize = 32;

/// What the names of the tensors of a layer begin with.
pub open spec fn layer_name(prefix: Seq<char>, l: nat) -> Seq<char> {
    prefix + decimal(l)
}

/// The tensors of a layer: those of linear attention or those of full attention,
/// those of an index where the layer has one, and those of every layer.
pub open spec fn layer_slots(c: Cfg, prefix: Seq<char>, l: int) -> Seq<SlotView> {
    let at = layer_name(prefix, l as nat);
    let gdn = c.gdn_layers@[l];
    let qsa = c.qsa_layers@[l];
    let hidden = c.hidden as int;
    let hcd = lane_width(c);
    let low = c.hc_lowrank as int;
    seq![
        vector_slot(c.hc_count == 0, at, ".input_layernorm.weight"@, hidden),
        vector_slot(gdn, at, ".linear_attn.A_log"@, c.lin_v_heads as int),
        vector_slot(gdn, at, ".linear_attn.dt_bias"@, c.lin_v_heads as int),
        vector_slot(gdn, at, ".linear_attn.conv1d.weight"@, conv_width(c) * c.conv_kernel),
        matrix_slot(gdn, at, ".linear_attn.in_proj_a.weight"@, c.lin_v_heads as int, hidden),
        matrix_slot(gdn, at, ".linear_attn.in_proj_b.weight"@, c.lin_v_heads as int, hidden),
        matrix_slot(gdn, at, ".linear_attn.in_proj_qkv.weight"@, conv_width(c), hidden),
        matrix_slot(gdn, at, ".linear_attn.in_proj_z.weight"@, value_width(c), hidden),
        vector_slot(gdn, at, ".linear_attn.norm.weight"@, c.lin_v_dim as int),
        matrix_slot(gdn, at, ".linear_attn.out_proj.weight"@, hidden, value_width(c)),
        matrix_slot(!gdn, at, ".self_attn.q_proj.weight"@, 2 * c.heads * c.head_dim, hidden),
        matrix_slot(!gdn, at, ".self_attn.k_proj.weight"@, c.kv_heads * c.head_dim, hidden),
        matrix_slot(!gdn, at, ".self_attn.v_proj.weight"@, c.kv_heads * c.head_dim, hidden),
        matrix_slot(!gdn, at, ".self_attn.o_proj.weight"@, hidden, c.heads * c.head_dim),
        vector_slot(!gdn, at, ".self_attn.q_norm.weight"@, c.head_dim as int),
        vector_slot(!gdn, at, ".self_attn.k_norm.weight"@, c.head_dim as int),
        matrix_slot(
            qsa,
            at,
            ".self_attn.indexer.index_qk_proj.weight"@,
            c.idx_n_heads * c.idx_head_dim + c.idx_kv_heads * c.idx_head_dim,
            hidden,
        ),
        vector_slot(qsa, at, ".self_attn.indexer.q_layernorm.weight"@, c.idx_head_dim as int),
        vector_slot(qsa, at, ".self_attn.indexer.k_layernorm.weight"@, c.idx_head_dim as int),
        vector_slot(true, at, ".attn_hyper_connection.hc_norm.weight"@, hcd),
        matrix_slot(
            true,
            at,
            ".attn_hyper_connection.input_mix_weight_down.weight"@,
            low,
            hcd,
        ),
        matrix_slot(true, at, ".attn_hyper_connection.input_mix_weight_up.weight"@, hcd, low),
        matrix_slot(
            true,
            at,
            ".attn_hyper_connection.block_inject_weight.weight"@,
            c.hc_count as int,
            hcd,
        ),
        vector_slot(true, at, ".mlp_hyper_connection.hc_norm.weight"@, hcd),
        matrix_slot(true, at, ".mlp_hyper_connection.input_mix_weight_down.weight"@, low, hcd),
        matrix_slot(true, at, ".mlp_hyper_connection.input_mix_weight_up.weight"@, hcd, low),
        matrix_slot(
            true,
            at,
            ".mlp_hyper_connection.block_inject_weight.weight"@,
            c.hc_count as int,
            hcd,
        ),
        matrix_slot(true, at, ".mlp.gate.weight"@, c.experts as int, hidden),
        matrix_slot(
            true,
            at,
            ".mlp.shared_expert.gate_proj.weight"@,
            c.shared_inter as int,
            hidden,
        ),
        matrix_slot(true, at, ".mlp.shared_expert.up_proj.weight"@, c.shared_inter as int, hidden),
        matrix_slot(
            true,
            at,
            ".mlp.shared_expert.down_proj.weight"@,
            hidden,
            c.shared_inter as int,
        ),
        matrix_slot(true, at, ".mlp.shared_expert_gate.weight"@, 1, hidden),
    ]
}

/// A text with another behind it.
fn joined(at: &str, name: &str) -> (r: String)
    ensures
        r@ == at@ + name@,
{
    let mut out: String = String::from_str(at);
    out.append(name);
    out
}

fn vector(present: bool, at: &str, name: &str, n: usize) -> (r: Slot)
    ensures
        r@ == vector_slot(present, at@, name@, n as int),
{
    if present {
        Slot::Vector { name: joined(at, name), n }
    } else {
        Slot::Absent
    }
}

fn matrix(present: bool, at: &str, name: &str, o: usize, i: usize) -> (r: Slot)
    ensures
        r@ == matrix_slot(present, at@, name@, o as int, i as int),
{
    if present {
        Slot::Matrix { name: joined(at, name), o, i }
    } else {
        Slot::Absent
    }
}

/// The tensors of a layer.
pub fn slots_of_layer(c: &Cfg, prefix: &str, l: usize) -> (r: Vec<Slot>)
    requires
        widths_fit(*c),
        l < c.gdn_layers@.len(),
        l < c.qsa_layers@.len(),
    ensures
        slot_views(r@) == layer_slots(*c, prefix@, l as int),
        r@.len() == LAYER_SLOTS,
{
    let mut start: String = String::from_str(prefix);
    push_decimal(&mut start, l as u64);
    let at: &str = start.as_str();
    let gdn: bool = c.gdn_layers[l];
    let qsa: bool = c.qsa_layers[l];
    let cdim: usize = cdim_total(c);
    let vdim: usize = c.lin_v_dim * c.lin_v_heads;
    let hcd: usize = c.hc_count * c.hidden;
    let index: usize = c.idx_n_heads * c.idx_head_dim + c.idx_kv_heads * c.idx_head_dim;
    let (h, vh, low) = (c.hidden, c.lin_v_heads, c.hc_lowrank);
    let mut r: Vec<Slot> = Vec::new();
    r.push(vector(c.hc_count == 0, at, ".input_layernorm.weight", h));
    r.push(vector(gdn, at, ".linear_attn.A_log", vh));
    r.push(vector(gdn, at, ".linear_attn.dt_bias", vh));
    r.push(vector(gdn, at, ".linear_attn.conv1d.weight", cdim * c.conv_kernel));
    r.push(matrix(gdn, at, ".linear_attn.in_proj_a.weight", vh, h));
    r.push(matrix(gdn, at, ".linear_attn.in_proj_b.weight", vh, h));
    r.push(matrix(gdn, at, ".linear_attn.in_proj_qkv.weight", cdim, h));
    r.push(matrix(gdn, at, ".linear_attn.in_proj_z.weight", vdim, h));
    r.push(vector(gdn, at, ".linear_attn.norm.weight", c.lin_v_dim));
    r.push(matrix(gdn, at, ".linear_attn.out_proj.weight", h, vdim));
    r.push(matrix(!gdn, at, ".self_attn.q_proj.weight", 2 * c.heads * c.head_dim, h));
    r.push(matrix(!gdn, at, ".self_attn.k_proj.weight", c.kv_heads * c.head_dim, h));
    r.push(matrix(!gdn, at, ".self_attn.v_proj.weight", c.kv_heads * c.head_dim, h));
    r.push(matrix(!gdn, at, ".self_attn.o_proj.weight", h, c.heads * c.head_dim));
    r.push(vector(!gdn, at, ".self_attn.q_norm.weight", c.head_dim));
    r.push(vector(!gdn, at, ".self_attn.k_norm.weight", c.head_dim));
    r.push(matrix(qsa, at, ".self_attn.indexer.index_qk_proj.weight", index, h));
    r.push(vector(qsa, at, ".self_attn.indexer.q_layernorm.weight", c.idx_head_dim));
    r.push(vector(qsa, at, ".self_attn.indexer.k_layernorm.weight", c.idx_head_dim));
    r.push(vector(true, at, ".attn_hyper_connection.hc_norm.weight", hcd));
    r.push(matrix(true, at, ".attn_hyper_connection.input_mix_weight_down.weight", low, hcd));
    r.push(matrix(true, at, ".attn_hyper_connection.input_mix_weight_up.weight", hcd, low));
    r.push(matrix(true, at, ".attn_hyper_connection.block_inject_weight.weight", c.hc_count, hcd));
    r.push(vector(true, at, ".mlp_hyper_connection.hc_norm.weight", hcd));
    r.push(matrix(true, at, ".mlp_hyper_connection.input_mix_weight_down.weight", low, hcd));
    r.push(matrix(true, at, ".mlp_hyper_connection.input_mix_weight_up.weight", hcd, low));
    r.push(matrix(true, at, ".mlp_hyper_connection.block_inject_weight.weight", c.hc_count, hcd));
    r.push(matrix(true, at, ".mlp.gate.weight", c.experts, h));
    r.push(matrix(true, at, ".mlp.shared_expert.gate_proj.weight", c.shared_inter, h));
    r.push(matrix(true, at, ".mlp.shared_expert.up_proj.weight", c.shared_inter, h));
    r.push(matrix(true, at, ".mlp.shared_expert.down_proj.weight", h, c.shared_inter));
    r.push(matrix(true, at, ".mlp.shared_expert_gate.weight", 1, h));
    assert(slot_views(r@) =~= layer_slots(*c, prefix@, l as int));
    r
}

/// The weights of a layer. Vectors are patterns of singles; what a layer does not
/// have is empty.
pub struct Layer {
    pub is_gdn: bool,
    pub is_qsa: bool,
    pub in_ln: Vec<u32>,
    pub gdn_a_log: Vec<u32>,
    pub gdn_dt_bias: Vec<u32>,
    pub gdn_conv1d: Vec<u32>,
    pub gdn_in_a: Wt,
    pub gdn_in_b: Wt,
    pub gdn_in_qkv: Wt,
    pub gdn_in_z: Wt,
    pub gdn_norm: Vec<u32>,
    pub gdn_out: Wt,
    pub attn_q: Wt,
    pub attn_k: Wt,
    pub attn_v: Wt,
    pub attn_o: Wt,
    pub attn_qn: Vec<u32>,
    pub attn_kn: Vec<u32>,
    pub index_qk: Wt,
    pub idx_qn: Vec<u32>,
    pub idx_kn: Vec<u32>,
    pub hc_norm: Vec<u32>,
    pub hc_mix_down: Wt,
    pub hc_mix_up: Wt,
    pub hc_inject: Wt,
    pub hc_mlp_norm: Vec<u32>,
    pub hc_mlp_mix_down: Wt,
    pub hc_mlp_mix_up: Wt,
    pub hc_mlp_inject: Wt,
    pub router: Wt,
    pub se_gate: Wt,
    pub se_up: Wt,
    pub se_down: Wt,
    pub se_g: Wt,
}

/// Whether a matrix is empty.
pub open spec fn no_matrix(w: Wt) -> bool {
    w.f@.len() == 0 && w.bytes is None && w.o == 0 && w.i == 0
}

/// An empty matrix.
pub fn empty_wt() -> (w: Wt)
    ensures
        no_matrix(w),
{
    Wt { f: Vec::new(), bytes: None, o: 0, i: 0 }
}

/// Whether a vector is what was fetched for it.
pub open spec fn vector_is(v: Vec<u32>, t: TensorHolds) -> bool {
    t == TensorHolds::Singles(v@)
}

/// Whether a matrix is what was fetched for its slot.
pub open spec fn matrix_is(w: Wt, s: SlotView, t: TensorHolds) -> bool {
    match s {
        SlotView::Matrix { o, i, .. } => w.o == o && w.i == i && match t {
            TensorHolds::Singles(v) => w.f@ == v && w.bytes is None,
            TensorHolds::Brain(b) => w.f@.len() == 0 && (w.bytes matches Some(
                WtBytes::Bf16 { weights, metal_tensor },
            ) && weights@ == b && metal_tensor == 0),
        },
        _ => no_matrix(w),
    }
}

/// The matrix of a slot from what was fetched for it.
fn matrix_from(s: &Slot, t: Tensor) -> (w: Wt)
    ensures
        matrix_is(w, s@, t@),
{
    match s {
        Slot::Matrix { o, i, .. } => match t {
            Tensor::Singles(f) => Wt { f, bytes: None, o: *o, i: *i },
            Tensor::Brain(weights) => Wt {
                f: Vec::new(),
                bytes: Some(WtBytes::Bf16 { weights, metal_tensor: 0 }),
                o: *o,
                i: *i,
            },
        },
        _ => empty_wt(),
    }
}

/// The vector of a slot from what was fetched for it.
fn vector_from(t: Tensor) -> (v: Vec<u32>)
    requires
        t@ is Singles,
    ensures
        vector_is(v, t@),
{
    match t {
        Tensor::Singles(f) => f,
        Tensor::Brain(_) => Vec::new(),
    }
}

/// Takes the last tensor off a list.
fn take_last(got: &mut Vec<Tensor>, k: usize) -> (t: Tensor)
    requires
        old(got)@.len() == k + 1,
    ensures
        t == old(got)@[k as int],
        final(got)@ == old(got)@.take(k as int),
{
    match got.pop() {
        Some(t) => {
            assert(got@ =~= old(got)@.take(k as int));
            t
        },
        None => {
            assert(false);
            Tensor::Brain(Vec::new())
        },
    }
}

/// Whether what was fetched fits the slots: as many, and vectors where vectors
/// are asked for.
pub open spec fn fits_slots(slots: Seq<SlotView>, got: Seq<TensorHolds>) -> bool {
    &&& slots.len() == got.len()
    &&& forall|k: int|
        0 <= k < slots.len() ==> (#[trigger] slots[k] is Matrix || got[k] is Singles)
}

impl Layer {
    /// Whether a layer is what was fetched for its slots.
    pub open spec fn is_from(self, c: Cfg, l: int, slots: Seq<SlotView>, got: Seq<TensorHolds>) -> bool {
        &&& self.is_gdn == c.gdn_layers@[l]
        &&& self.is_qsa == c.qsa_layers@[l]
        &&& vector_is(self.in_ln, got[0])
        &&& vector_is(self.gdn_a_log, got[1])
        &&& vector_is(self.gdn_dt_bias, got[2])
        &&& vector_is(self.gdn_conv1d, got[3])
        &&& matrix_is(self.gdn_in_a, slots[4], got[4])
        &&& matrix_is(self.gdn_in_b, slots[5], got[5])
        &&& matrix_is(self.gdn_in_qkv, slots[6], got[6])
        &&& matrix_is(self.gdn_in_z, slots[7], got[7])
        &&& vector_is(self.gdn_norm, got[8])
        &&& matrix_is(self.gdn_out, slots[9], got[9])
        &&& matrix_is(self.attn_q, slots[10], got[10])
        &&& matrix_is(self.attn_k, slots[11], got[11])
        &&& matrix_is(self.attn_v, slots[12], got[12])
        &&& matrix_is(self.attn_o, slots[13], got[13])
        &&& vector_is(self.attn_qn, got[14])
        &&& vector_is(self.attn_kn, got[15])
        &&& matrix_is(self.index_qk, slots[16], got[16])
        &&& vector_is(self.idx_qn, got[17])
        &&& vector_is(self.idx_kn, got[18])
        &&& vector_is(self.hc_norm, got[19])
        &&& matrix_is(self.hc_mix_down, slots[20], got[20])
        &&& matrix_is(self.hc_mix_up, slots[21], got[21])
        &&& matrix_is(self.hc_inject, slots[22], got[22])
        &&& vector_is(self.hc_mlp_norm, got[23])
        &&& matrix_is(self.hc_mlp_mix_down, slots[24], got[24])
        &&& matrix_is(self.hc_mlp_mix_up, slots[25], got[25])
        &&& matrix_is(self.hc_mlp_inject, slots[26], got[26])
        &&& matrix_is(self.router, slots[27], got[27])
        &&& matrix_is(self.se_gate, slots[28], got[28])
        &&& matrix_is(self.se_up, slots[29], got[29])
        &&& matrix_is(self.se_down, slots[30], got[30])
        &&& matrix_is(self.se_g, slots[31], got[31])
    }

    /// A layer without weights.
    pub open spec fn is_empty(self) -> bool {
        &&& !self.is_gdn
        &&& !self.is_qsa
        &&& self.in_ln@.len() == 0
        &&& self.gdn_a_log@.len() == 0
        &&& self.gdn_dt_bias@.len() == 0
        &&& self.gdn_conv1d@.len() == 0
        &&& no_matrix(self.gdn_in_a)
        &&& no_matrix(self.gdn_in_b)
        &&& no_matrix(self.gdn_in_qkv)
        &&& no_matrix(self.gdn_in_z)
        &&& self.gdn_norm@.len() == 0
        &&& no_matrix(self.gdn_out)
        &&& no_matrix(self.attn_q)
        &&& no_matrix(self.attn_k)
        &&& no_matrix(self.attn_v)
        &&& no_matrix(self.attn_o)
        &&& self.attn_qn@.len() == 0
        &&& self.attn_kn@.len() == 0
        &&& no_matrix(self.index_qk)
        &&& self.idx_qn@.len() == 0
        &&& self.idx_kn@.len() == 0
        &&& self.hc_norm@.len() == 0
        &&& no_matrix(self.hc_mix_down)
        &&& no_matrix(self.hc_mix_up)
        &&& no_matrix(self.hc_inject)
        &&& self.hc_mlp_norm@.len() == 0
        &&& no_matrix(self.hc_mlp_mix_down)
        &&& no_matrix(self.hc_mlp_mix_up)
        &&& no_matrix(self.hc_mlp_inject)
        &&& no_matrix(self.router)
        &&& no_matrix(self.se_gate)
        &&& no_matrix(self.se_up)
        &&& no_matrix(self.se_down)
        &&& no_matrix(self.se_g)
    }

    /// A layer without weights.
    pub fn empty() -> (r: Layer)
        ensures
            r.is_empty(),
    {
        Layer {
            is_gdn: false,
            is_qsa: false,
            in_ln: Vec::new(),
            gdn_a_log: Vec::new(),
            gdn_dt_bias: Vec::new(),
            gdn_conv1d: Vec::new(),
            gdn_in_a: empty_wt(),
            gdn_in_b: empty_wt(),
            gdn_in_qkv: empty_wt(),
            gdn_in_z: empty_wt(),
            gdn_norm: Vec::new(),
            gdn_out: empty_wt(),
            attn_q: empty_wt(),
            attn_k: empty_wt(),
            attn_v: empty_wt(),
            attn_o: empty_wt(),
            attn_qn: Vec::new(),
            attn_kn: Vec::new(),
            index_qk: empty_wt(),
            idx_qn: Vec::new(),
            idx_kn: Vec::new(),
            hc_norm: Vec::new(),
            hc_mix_down: empty_wt(),
            hc_mix_up: empty_wt(),
            hc_inject: empty_wt(),
            hc_mlp_norm: Vec::new(),
            hc_mlp_mix_down: empty_wt(),
            hc_mlp_mix_up: empty_wt(),
            hc_mlp_inject: empty_wt(),
            router: empty_wt(),
            se_gate: empty_wt(),
            se_up: empty_wt(),
            se_down: empty_wt(),
            se_g: empty_wt(),
        }
    }
}

/// Whether a vector stands at a place of the slots of a layer.
pub open spec fn is_vector_place(k: int) -> bool {
    k == 0 || k == 1 || k == 2 || k == 3 || k == 8 || k == 14 || k == 15 || k == 17 || k == 18 || k == 19 || k == 23
}

/// Puts a layer together from what was fetched for its slots.
#[verifier::rlimit(40)]
pub fn layer_from(c: &Cfg, l: usize, slots: &Vec<Slot>, got: Vec<Tensor>) -> (r: Layer)
    requires
        l < c.gdn_layers@.len(),
        l < c.qsa_layers@.len(),
        slots@.len() == LAYER_SLOTS,
        forall|k: int| 0 <= k < LAYER_SLOTS && is_vector_place(k) ==> !(#[trigger] slots@[k]@ is Matrix),
        fits_slots(slot_views(slots@), tensor_list(got@)),
    ensures
        r.is_from(*c, l as int, slot_views(slots@), tensor_list(got@)),
{
    let ghost all = got@;
    let ghost sv = slot_views(slots@);
    let mut rest: Vec<Tensor> = got;
    let t31: Tensor = take_last(&mut rest, 31);
    let t30: Tensor = take_last(&mut rest, 30);
    let t29: Tensor = take_last(&mut rest, 29);
    let t28: Tensor = take_last(&mut rest, 28);
    let t27: Tensor = take_last(&mut rest, 27);
    let t26: Tensor = take_last(&mut rest, 26);
    let t25: Tensor = take_last(&mut rest, 25);
    let t24: Tensor = take_last(&mut rest, 24);
    let t23: Tensor = take_last(&mut rest, 23);
    let t22: Tensor = take_last(&mut rest, 22);
    let t21: Tensor = take_last(&mut rest, 21);
    let t20: Tensor = take_last(&mut rest, 20);
    let t19: Tensor = take_last(&mut rest, 19);
    let t18: Tensor = take_last(&mut rest, 18);
    let t17: Tensor = take_last(&mut rest, 17);
    let t16: Tensor = take_last(&mut rest, 16);
    let t15: Tensor = take_last(&mut rest, 15);
    let t14: Tensor = take_last(&mut rest, 14);
    let t13: Tensor = take_last(&mut rest, 13);
    let t12: Tensor = take_last(&mut rest, 12);
    let t11: Tensor = take_last(&mut rest, 11);
    let t10: Tensor = take_last(&mut rest, 10);
    let t9: Tensor = take_last(&mut rest, 9);
    let t8: Tensor = take_last(&mut rest, 8);
    let t7: Tensor = take_last(&mut rest, 7);
    let t6: Tensor = take_last(&mut rest, 6);
    let t5: Tensor = take_last(&mut rest, 5);
    let t4: Tensor = take_last(&mut rest, 4);
    let t3: Tensor = take_last(&mut rest, 3);
    let t2: Tensor = take_last(&mut rest, 2);
    let t1: Tensor = take_last(&mut rest, 1);
    let t0: Tensor = take_last(&mut rest, 0);
    proof {
        let held = tensor_list(all);
        assert(sv[0] == slots@[0]@ && held[0] == t0@);
        assert(sv[1] == slots@[1]@ && held[1] == t1@);
        assert(sv[2] == slots@[2]@ && held[2] == t2@);
        assert(sv[3] == slots@[3]@ && held[3] == t3@);
        assert(sv[4] == slots@[4]@ && held[4] == t4@);
        assert(sv[5] == slots@[5]@ && held[5] == t5@);
        assert(sv[6] == slots@[6]@ && held[6] == t6@);
        assert(sv[7] == slots@[7]@ && held[7] == t7@);
        assert(sv[8] == slots@[8]@ && held[8] == t8@);
        assert(sv[9] == slots@[9]@ && held[9] == t9@);
        assert(sv[10] == slots@[10]@ && held[10] == t10@);
        assert(sv[11] == slots@[11]@ && held[11] == t11@);
        assert(sv[12] == slots@[12]@ && held[12] == t12@);
        assert(sv[13] == slots@[13]@ && held[13] == t13@);
        assert(sv[14] == slots@[14]@ && held[14] == t14@);
        assert(sv[15] == slots@[15]@ && held[15] == t15@);
        assert(sv[16] == slots@[16]@ && held[16] == t16@);
        assert(sv[17] == slots@[17]@ && held[17] == t17@);
        assert(sv[18] == slots@[18]@ && held[18] == t18@);
        assert(sv[19] == slots@[19]@ && held[19] == t19@);
        assert(sv[20] == slots@[20]@ && held[20] == t20@);
        assert(sv[21] == slots@[21]@ && held[21] == t21@);
        assert(sv[22] == slots@[22]@ && held[22] == t22@);
        assert(sv[23] == slots@[23]@ && held[23] == t23@);
        assert(sv[24] == slots@[24]@ && held[24] == t24@);
        assert(sv[25] == slots@[25]@ && held[25] == t25@);
        assert(sv[26] == slots@[26]@ && held[26] == t26@);
        assert(sv[27] == slots@[27]@ && held[27] == t27@);
        assert(sv[28] == slots@[28]@ && held[28] == t28@);
        assert(sv[29] == slots@[29]@ && held[29] == t29@);
        assert(sv[30] == slots@[30]@ && held[30] == t30@);
        assert(sv[31] == slots@[31]@ && held[31] == t31@);
    }
    Layer {
        is_gdn: c.gdn_layers[l],
        is_qsa: c.qsa_layers[l],
        in_ln: vector_from(t0),
        gdn_a_log: vector_from(t1),
        gdn_dt_bias: vector_from(t2),
        gdn_conv1d: vector_from(t3),
        gdn_in_a: matrix_from(&slots[4], t4),
        gdn_in_b: matrix_from(&slots[5], t5),
        gdn_in_qkv: matrix_from(&slots[6], t6),
        gdn_in_z: matrix_from(&slots[7], t7),
        gdn_norm: vector_from(t8),
        gdn_out: matrix_from(&slots[9], t9),
        attn_q: matrix_from(&slots[10], t10),
        attn_k: matrix_from(&slots[11], t11),
        attn_v: matrix_from(&slots[12], t12),
        attn_o: matrix_from(&slots[13], t13),
        attn_qn: vector_from(t14),
        attn_kn: vector_from(t15),
        index_qk: matrix_from(&slots[16], t16),
        idx_qn: vector_from(t17),
        idx_kn: vector_from(t18),
        hc_norm: vector_from(t19),
        hc_mix_down: matrix_from(&slots[20], t20),
        hc_mix_up: matrix_from(&slots[21], t21),
        hc_inject: matrix_from(&slots[22], t22),
        hc_mlp_norm: vector_from(t23),
        hc_mlp_mix_down: matrix_from(&slots[24], t24),
        hc_mlp_mix_up: matrix_from(&slots[25], t25),
        hc_mlp_inject: matrix_from(&slots[26], t26),
        router: matrix_from(&slots[27], t27),
        se_gate: matrix_from(&slots[28], t28),
        se_up: matrix_from(&slots[29], t29),
        se_down: matrix_from(&slots[30], t30),
        se_g: matrix_from(&slots[31], t31),
    }
}

/// What a file of tensors gives for a slot.
pub open spec fn slot_in_file(data: Seq<Option<Seq<u8>>>, tensors: Seq<StTensorView>, s: SlotView) -> Result<
    TensorHolds,
    StErrorView,
> {
    let r = match s {
        SlotView::Absent => Ok(Seq::empty()),
        SlotView::Vector { name, n } => load_spec(data, tensors, name, seq![n as u64]),
        SlotView::Matrix { name, o, i } => load_spec(data, tensors, name, seq![o as u64, i as u64]),
    };
    match r {
        Ok(v) => Ok(TensorHolds::Singles(v)),
        Err(e) => Err(e),
    }
}

/// What a file of tensors gives for slots, or the fault of the first that fails.
pub open spec fn in_file(data: Seq<Option<Seq<u8>>>, tensors: Seq<StTensorView>, slots: Seq<SlotView>) -> Result<
    Seq<TensorHolds>,
    StErrorView,
>
    decreases slots.len(),
{
    if slots.len() == 0 {
        Ok(Seq::empty())
    } else {
        match in_file(data, tensors, slots.drop_last()) {
            Err(e) => Err(e),
            Ok(v) => match slot_in_file(data, tensors, slots.last()) {
                Err(e) => Err(e),
                Ok(t) => Ok(v.push(t)),
            },
        }
    }
}

/// Where a part of the slots fails, all of them fail the same way.
proof fn lemma_file_fault(data: Seq<Option<Seq<u8>>>, tensors: Seq<StTensorView>, slots: Seq<SlotView>, n: int)
    requires
        0 <= n <= slots.len(),
        in_file(data, tensors, slots.take(n)) is Err,
    ensures
        in_file(data, tensors, slots) == in_file(data, tensors, slots.take(n)),
    decreases slots.len(),
{
    if n < slots.len() {
        assert(slots.drop_last().take(n) =~= slots.take(n));
        lemma_file_fault(data, tensors, slots.drop_last(), n);
    } else {
        assert(slots.take(n) =~= slots);
    }
}

/// The tensor of a slot.
fn fetch_slot(st: &StFile, s: &Slot) -> (r: Result<Tensor, StError>)
    requires
        st.wf(),
    ensures
        match r {
            Ok(t) => slot_in_file(st.held(), st.listed(), s@) == Ok::<TensorHolds, StErrorView>(t@)
                && t@ is Singles,
            Err(e) => slot_in_file(st.held(), st.listed(), s@) == Err::<TensorHolds, StErrorView>(
                e@,
            ),
        },
{
    let mut shape: Vec<u64> = Vec::new();
    let name: &str = match s {
        Slot::Absent => {
            let none: Vec<u32> = Vec::new();
            assert(none@ =~= Seq::<u32>::empty());
            return Ok(Tensor::Singles(none));
        },
        Slot::Vector { name, n } => {
            shape.push(*n as u64);
            assert(shape@ =~= seq![*n as u64]);
            name.as_str()
        },
        Slot::Matrix { name, o, i } => {
            shape.push(*o as u64);
            shape.push(*i as u64);
            assert(shape@ =~= seq![*o as u64, *i as u64]);
            name.as_str()
        },
    };
    match st.f32_bits(name, &shape) {
        Ok(v) => Ok(Tensor::Singles(v)),
        Err(e) => Err(e),
    }
}

/// The tensors of slots, or the fault of the first that fails.
fn fetch(st: &StFile, slots: &Vec<Slot>) -> (r: Result<Vec<Tensor>, StError>)
    requires
        st.wf(),
    ensures
        match r {
            Ok(v) => in_file(st.held(), st.listed(), slot_views(slots@)) == Ok::<
                Seq<TensorHolds>,
                StErrorView,
            >(tensor_list(v@)) && v@.len() == slots@.len() && (forall|k: int|
                0 <= k < v@.len() ==> #[trigger] v@[k]@ is Singles),
            Err(e) => in_file(st.held(), st.listed(), slot_views(slots@)) == Err::<
                Seq<TensorHolds>,
                StErrorView,
            >(e@),
        },
{
    let ghost sv = slot_views(slots@);
    let ghost (data, list) = (st.held(), st.listed());
    let mut v: Vec<Tensor> = Vec::new();
    let mut k: usize = 0;
    assert(sv.take(0) =~= Seq::<SlotView>::empty());
    assert(tensor_list(v@) =~= Seq::<TensorHolds>::empty());
    while k < slots.len()
        invariant
            st.wf(),
            data == st.held() && list == st.listed(),
            sv == slot_views(slots@),
            k <= slots.len(),
            v@.len() == k,
            forall|j: int| 0 <= j < k ==> #[trigger] v@[j]@ is Singles,
            in_file(data, list, sv.take(k as int)) == Ok::<Seq<TensorHolds>, StErrorView>(
                tensor_list(v@),
            ),
        decreases slots.len() - k,
    {
        proof {
            assert(sv.take(k + 1).drop_last() =~= sv.take(k as int));
            assert(sv.take(k + 1).last() == slots@[k as int]@);
        }
        match fetch_slot(st, &slots[k]) {
            Ok(t) => {
                let ghost before = v@;
                let ghost tv = t@;
                v.push(t);
                assert(tensor_list(v@) =~= tensor_list(before).push(tv));
            },
            Err(e) => {
                proof {
                    lemma_file_fault(data, list, sv, k + 1);
                }
                return Err(e);
            },
        }
        k = k + 1;
    }
    assert(sv.take(k as int) =~= sv);
    Ok(v)
}

/// A compiled package: the names and payloads of its dense tensors, and the names that all of its
/// records have, in the order of its index.
pub struct Records {
    pub entries: Vec<(String, Vec<u8>)>,
    pub names: Vec<Option<String>>,
}

/// The payload of a record, the first where there are several of the name.
pub open spec fn payload_of(entries: Seq<(String, Vec<u8>)>, name: Seq<char>) -> Option<Seq<u8>>
    decreases entries.len(),
{
    if entries.len() == 0 {
        None
    } else if entries[0].0@ == name {
        Some(entries[0].1@)
    } else {
        payload_of(entries.drop_first(), name)
    }
}

impl Records {
    /// The payload of a tensor: the record under the longer name goes first.
    pub open spec fn dense(self, name: Seq<char>) -> Option<Seq<u8>> {
        match payload_of(self.entries@, hf_prefix() + name) {
            Some(p) => Some(p),
            None => payload_of(self.entries@, name),
        }
    }

    fn find(&self, name: &str) -> (r: Option<&Vec<u8>>)
        ensures
            match r {
                Some(p) => payload_of(self.entries@, name@) == Some(p@),
                None => payload_of(self.entries@, name@) is None,
            },
    {
        let ghost all = self.entries@;
        let mut i: usize = 0;
        assert(all.skip(0) =~= all);
        while i < self.entries.len()
            invariant
                i <= self.entries.len(),
                all == self.entries@,
                payload_of(all, name@) == payload_of(all.skip(i as int), name@),
            decreases self.entries.len() - i,
        {
            proof {
                assert(all.skip(i as int)[0] == all[i as int]);
                assert(all.skip(i as int).drop_first() =~= all.skip(i + 1));
            }
            if same_text(self.entries[i].0.as_str(), name) {
                return Some(&self.entries[i].1);
            }
            i = i + 1;
        }
        None
    }

    /// The payload of a tensor.
    pub fn rec(&self, name: &str) -> (r: Option<&Vec<u8>>)
        ensures
            match r {
                Some(p) => self.dense(name@) == Some(p@),
                None => self.dense(name@) is None,
            },
    {
        let (first, second) = crate::colisource::record_names(name);
        match self.find(first.as_str()) {
            Some(p) => Some(p),
            None => self.find(second.as_str()),
        }
    }
}

/// What is wrong with a record.
#[derive(Clone, Copy, Debug, PartialEq, Eq, Structural)]
pub enum RecordFault {
    /// There is no such record.
    Missing,
    /// The payload is not `o` times `i` numbers of two bytes.
    Length { bytes: usize, o: usize, i: usize },
    /// The payload is no list of numbers of eight bytes.
    NotAligned { bytes: usize },
}

/// A fault and the name of the tensor it is about.
#[derive(Debug)]
pub struct RecordError {
    pub fault: RecordFault,
    pub name: String,
}

/// What a record error says.
pub struct RecordErrorView {
    pub fault: RecordFault,
    pub name: Seq<char>,
}

impl View for RecordError {
    type V = RecordErrorView;

    open spec fn view(&self) -> RecordErrorView {
        RecordErrorView { fault: self.fault, name: self.name@ }
    }
}

/// The singles of bfloat16 bytes, as patterns.
pub open spec fn widened(p: Seq<u8>) -> Seq<u32> {
    Seq::new(p.len() / 2, |k: int| (le(p, 2 * k, 2) * 65536) as u32)
}

/// What the records give for a slot.
pub open spec fn slot_in_records(r: Records, s: SlotView) -> Result<TensorHolds, RecordErrorView> {
    match s {
        SlotView::Absent => Ok(TensorHolds::Singles(Seq::empty())),
        SlotView::Vector { name, n } => match r.dense(name) {
            None => Err(RecordErrorView { fault: RecordFault::Missing, name }),
            Some(p) => if p.len() != 2 * n {
                Err(
                    RecordErrorView {
                        fault: RecordFault::Length {
                            bytes: p.len() as usize,
                            o: n as usize,
                            i: 1,
                        },
                        name,
                    },
                )
            } else {
                Ok(TensorHolds::Singles(widened(p)))
            },
        },
        SlotView::Matrix { name, o, i } => match r.dense(name) {
            None => Err(RecordErrorView { fault: RecordFault::Missing, name }),
            Some(p) => if p.len() != 2 * (o * i) {
                Err(
                    RecordErrorView {
                        fault: RecordFault::Length {
                            bytes: p.len() as usize,
                            o: o as usize,
                            i: i as usize,
                        },
                        name,
                    },
                )
            } else {
                Ok(TensorHolds::Brain(p))
            },
        },
    }
}

/// What the records give for slots, or the fault of the first that fails.
pub open spec fn in_records(r: Records, slots: Seq<SlotView>) -> Result<
    Seq<TensorHolds>,
    RecordErrorView,
>
    decreases slots.len(),
{
    if slots.len() == 0 {
        Ok(Seq::empty())
    } else {
        match in_records(r, slots.drop_last()) {
            Err(e) => Err(e),
            Ok(v) => match slot_in_records(r, slots.last()) {
                Err(e) => Err(e),
                Ok(t) => Ok(v.push(t)),
            },
        }
    }
}

/// Where a part of the slots fails, all of them fail the same way.
proof fn lemma_record_fault(r: Records, slots: Seq<SlotView>, n: int)
    requires
        0 <= n <= slots.len(),
        in_records(r, slots.take(n)) is Err,
    ensures
        in_records(r, slots) == in_records(r, slots.take(n)),
    decreases slots.len(),
{
    if n < slots.len() {
        assert(slots.drop_last().take(n) =~= slots.take(n));
        lemma_record_fault(r, slots.drop_last(), n);
    } else {
        assert(slots.take(n) =~= slots);
    }
}

/// The singles of bfloat16 bytes.
fn widen(p: &Vec<u8>) -> (r: Vec<u32>)
    ensures
        r@ == widened(p@),
{
    let n: usize = p.len() / 2;
    let mut v: Vec<u32> = Vec::new();
    let mut k: usize = 0;
    while k < n
        invariant
            k <= n,
            n == p@.len() / 2,
            p.len() == p@.len(),
            v@.len() == k,
            forall|j: int| 0 <= j < k ==> #[trigger] v@[j] == (le(p@, 2 * j, 2) * 65536) as u32,
        decreases n - k,
    {
        proof {
            crate::bytes::lemma_bases();
        }
        let u: u16 = read_le(p.as_slice(), 2 * k, 2) as u16;
        v.push(crate::floatbits::bf16_to_f32(u));
        k = k + 1;
    }
    assert(v@ =~= widened(p@));
    v
}

fn record_error(fault: RecordFault, name: &str) -> (e: RecordError)
    ensures
        e@ == (RecordErrorView { fault, name: name@ }),
{
    RecordError { fault, name: String::from_str(name) }
}

/// Whether a length is twice a product, counted without overflow.
fn holds_pairs(len: usize, o: usize, i: usize) -> (r: bool)
    ensures
        r == (len == 2 * (o * i)),
{
    match o.checked_mul(i) {
        Some(n) => match n.checked_mul(2) {
            Some(m) => len == m,
            None => false,
        },
        None => false,
    }
}

/// The tensor of a slot.
fn fetch_record(r: &Records, s: &Slot) -> (t: Result<Tensor, RecordError>)
    ensures
        match t {
            Ok(t) => slot_in_records(*r, s@) == Ok::<TensorHolds, RecordErrorView>(t@) && (s@ is Matrix
                || t@ is Singles),
            Err(e) => slot_in_records(*r, s@) == Err::<TensorHolds, RecordErrorView>(e@),
        },
{
    match s {
        Slot::Absent => {
            let none: Vec<u32> = Vec::new();
            assert(none@ =~= Seq::<u32>::empty());
            Ok(Tensor::Singles(none))
        },
        Slot::Vector { name, n } => match r.rec(name.as_str()) {
            None => Err(record_error(RecordFault::Missing, name.as_str())),
            Some(p) => {
                if !holds_pairs(p.len(), *n, 1) {
                    return Err(
                        record_error(
                            RecordFault::Length { bytes: p.len(), o: *n, i: 1 },
                            name.as_str(),
                        ),
                    );
                }
                Ok(Tensor::Singles(widen(p)))
            },
        },
        Slot::Matrix { name, o, i } => match r.rec(name.as_str()) {
            None => Err(record_error(RecordFault::Missing, name.as_str())),
            Some(p) => {
                if !holds_pairs(p.len(), *o, *i) {
                    return Err(
                        record_error(
                            RecordFault::Length { bytes: p.len(), o: *o, i: *i },
                            name.as_str(),
                        ),
                    );
                }
                Ok(Tensor::Brain(p.clone()))
            },
        },
    }
}

/// The tensors of slots, or the fault of the first that fails.
fn fetch_records(r: &Records, slots: &Vec<Slot>) -> (t: Result<Vec<Tensor>, RecordError>)
    ensures
        match t {
            Ok(v) => in_records(*r, slot_views(slots@)) == Ok::<Seq<TensorHolds>, RecordErrorView>(
                tensor_list(v@),
            ) && v@.len() == slots@.len() && (forall|k: int|
                0 <= k < v@.len() ==> (slots@[k]@ is Matrix || #[trigger] v@[k]@ is Singles)),
            Err(e) => in_records(*r, slot_views(slots@)) == Err::<Seq<TensorHolds>, RecordErrorView>(
                e@,
            ),
        },
{
    let ghost sv = slot_views(slots@);
    let mut v: Vec<Tensor> = Vec::new();
    let mut k: usize = 0;
    assert(sv.take(0) =~= Seq::<SlotView>::empty());
    assert(tensor_list(v@) =~= Seq::<TensorHolds>::empty());
    while k < slots.len()
        invariant
            sv == slot_views(slots@),
            k <= slots.len(),
            v@.len() == k,
            forall|j: int| 0 <= j < k ==> (slots@[j]@ is Matrix || #[trigger] v@[j]@ is Singles),
            in_records(*r, sv.take(k as int)) == Ok::<Seq<TensorHolds>, RecordErrorView>(
                tensor_list(v@),
            ),
        decreases slots.len() - k,
    {
        proof {
            assert(sv.take(k + 1).drop_last() =~= sv.take(k as int));
            assert(sv.take(k + 1).last() == slots@[k as int]@);
        }
        match fetch_record(r, &slots[k]) {
            Ok(t) => {
                let ghost before = v@;
                let ghost tv = t@;
                v.push(t);
                assert(tensor_list(v@) =~= tensor_list(before).push(tv));
            },
            Err(e) => {
                proof {
                    lemma_record_fault(*r, sv, k + 1);
                }
                return Err(e);
            },
        }
        k = k + 1;
    }
    assert(sv.take(k as int) =~= sv);
    Ok(v)
}

/// A tensor from a file has as many elements as its slot has places.
pub(crate) proof fn lemma_file_len(data: Seq<Option<Seq<u8>>>, tensors: Seq<StTensorView>, s: SlotView)
    requires
        slot_in_file(data, tensors, s) is Ok,
        s matches SlotView::Matrix { o, i, .. } ==> 0 <= o <= usize::MAX && 0 <= i <= usize::MAX,
    ensures
        slot_in_file(data, tensors, s)->Ok_0 is Singles,
        s matches SlotView::Matrix { o, i, .. } ==> (slot_in_file(data, tensors, s)->Ok_0)->Singles_0.len()
            == o * i,
{
    if let SlotView::Matrix { name, o, i } = s {
        let e = seq![o as u64, i as u64];
        assert(e.drop_last() =~= seq![o as u64]);
        assert(e.drop_last().drop_last() =~= Seq::<u64>::empty());
        reveal_with_fuel(crate::gguf::checked_product, 3);
        assert(1 * o == o);
    }
}

/// A matrix that was fetched from a file or from records is whole: it has a
/// value in every place.
pub proof fn law_fetched_matrices_are_whole(
    w: Wt,
    s: SlotView,
    data: Seq<Option<Seq<u8>>>,
    tensors: Seq<StTensorView>,
    r: Records,
)
    requires
        s matches SlotView::Matrix { o, i, .. } ==> 0 <= o <= usize::MAX && 0 <= i <= usize::MAX,
        (slot_in_file(data, tensors, s) is Ok && matrix_is(
            w,
            s,
            slot_in_file(data, tensors, s)->Ok_0,
        )) || (slot_in_records(r, s) is Ok && matrix_is(w, s, slot_in_records(r, s)->Ok_0)),
    ensures
        w.wf(),
{
    if slot_in_file(data, tensors, s) is Ok && matrix_is(w, s, slot_in_file(data, tensors, s)->Ok_0) {
        lemma_file_len(data, tensors, s);
    }
}

/// What the files of a model call their layers.
pub open spec fn file_layers() -> Seq<char> {
    "model.layers."@
}

/// What the records of a package call their layers.
pub open spec fn record_layers() -> Seq<char> {
    "layers."@
}

/// The tensors of an expert.
pub open spec fn expert_slots(c: Cfg, l: int, e: int) -> Seq<SlotView> {
    let at = layer_name(file_layers(), l as nat) + ".mlp.experts."@ + decimal(e as nat);
    seq![
        matrix_slot(true, at, ".gate_up_proj"@, 2 * c.moe_inter, c.hidden as int),
        matrix_slot(true, at, ".down_proj"@, c.hidden as int, c.moe_inter as int),
    ]
}

/// The three matrices of an expert.
pub struct ExpertWeights {
    pub gate: Wt,
    pub up: Wt,
    pub down: Wt,
}

impl ExpertWeights {
    /// Whether the matrices are what was fetched: gate and up are the two halves of
    /// the first tensor.
    pub open spec fn is_from(self, c: Cfg, got: Seq<TensorHolds>) -> bool {
        let half = c.moe_inter * c.hidden;
        &&& got[0] matches TensorHolds::Singles(gu) && self.gate.f@ == gu.take(half)
            && self.up.f@ == gu.skip(half)
        &&& got[1] == TensorHolds::Singles(self.down.f@)
        &&& self.gate.bytes is None && self.up.bytes is None && self.down.bytes is None
        &&& self.gate.o == c.moe_inter && self.gate.i == c.hidden
        &&& self.up.o == c.moe_inter && self.up.i == c.hidden
        &&& self.down.o == c.hidden && self.down.i == c.moe_inter
    }
}

/// What a file gives for an expert.
pub open spec fn file_expert(data: Seq<Option<Seq<u8>>>, list: Seq<StTensorView>, c: Cfg, l: int, e: int) -> Result<
    Seq<TensorHolds>,
    StErrorView,
> {
    in_file(data, list, expert_slots(c, l, e))
}

/// What a file gives for a layer.
pub open spec fn file_layer(data: Seq<Option<Seq<u8>>>, list: Seq<StTensorView>, c: Cfg, l: int) -> Result<
    Seq<TensorHolds>,
    StErrorView,
> {
    in_file(data, list, layer_slots(c, file_layers(), l))
}

/// The first fault among the first `n` experts of a layer.
pub open spec fn experts_fault(data: Seq<Option<Seq<u8>>>, list: Seq<StTensorView>, c: Cfg, l: int, n: int) -> Option<
    StErrorView,
>
    decreases n,
{
    if n <= 0 {
        None
    } else {
        match experts_fault(data, list, c, l, n - 1) {
            Some(e) => Some(e),
            None => match file_expert(data, list, c, l, n - 1) {
                Err(e) => Some(e),
                Ok(_) => None,
            },
        }
    }
}

/// The first fault among the first `n` layers and their experts.
pub open spec fn layers_fault(data: Seq<Option<Seq<u8>>>, list: Seq<StTensorView>, c: Cfg, n: int) -> Option<
    StErrorView,
>
    decreases n,
{
    if n <= 0 {
        None
    } else {
        match layers_fault(data, list, c, n - 1) {
            Some(e) => Some(e),
            None => match file_layer(data, list, c, n - 1) {
                Err(e) => Some(e),
                Ok(_) => experts_fault(data, list, c, n - 1, c.experts as int),
            },
        }
    }
}

/// A fault stays the first.
proof fn lemma_experts_fault_stays(
    data: Seq<Option<Seq<u8>>>,
    list: Seq<StTensorView>,
    c: Cfg,
    l: int,
    n: int,
    m: int,
)
    requires
        n <= m,
        experts_fault(data, list, c, l, n) is Some,
    ensures
        experts_fault(data, list, c, l, m) == experts_fault(data, list, c, l, n),
    decreases m - n,
{
    if n < m {
        lemma_experts_fault_stays(data, list, c, l, n, m - 1);
    }
}

/// A fault stays the first.
proof fn lemma_layers_fault_stays(data: Seq<Option<Seq<u8>>>, list: Seq<StTensorView>, c: Cfg, n: int, m: int)
    requires
        n <= m,
        layers_fault(data, list, c, n) is Some,
    ensures
        layers_fault(data, list, c, m) == layers_fault(data, list, c, n),
    decreases m - n,
{
    if n < m {
        lemma_layers_fault_stays(data, list, c, n, m - 1);
    }
}

/// The first `n` elements and the others.
fn halved(v: Vec<u32>, n: usize) -> (r: (Vec<u32>, Vec<u32>))
    requires
        n <= v@.len(),
    ensures
        r.0@ == v@.take(n as int),
        r.1@ == v@.skip(n as int),
{
    let mut first: Vec<u32> = v;
    let ghost all = first@;
    let second: Vec<u32> = first.split_off(n);
    assert(first@ =~= all.take(n as int));
    assert(second@ =~= all.skip(n as int));
    (first, second)
}

/// The tensors of an expert.
fn slots_of_expert(c: &Cfg, at: &str, l: usize, e: usize) -> (slots: Vec<Slot>)
    requires
        widths_fit(*c),
        at@ == layer_name(file_layers(), l as nat),
    ensures
        slot_views(slots@) == expert_slots(*c, l as int, e as int),
{
    let mut start: String = String::from_str(at);
    start.append(".mlp.experts.");
    push_decimal(&mut start, e as u64);
    let mut slots: Vec<Slot> = Vec::new();
    slots.push(matrix(true, start.as_str(), ".gate_up_proj", 2 * c.moe_inter, c.hidden));
    slots.push(matrix(true, start.as_str(), ".down_proj", c.hidden, c.moe_inter));
    assert(slot_views(slots@) =~= expert_slots(*c, l as int, e as int));
    slots
}

/// Loads an expert from a file.
fn load_expert(st: &StFile, c: &Cfg, at: &str, l: usize, e: usize) -> (r: Result<
    ExpertWeights,
    StError,
>)
    requires
        st.wf(),
        widths_fit(*c),
        at@ == layer_name(file_layers(), l as nat),
    ensures
        match r {
            Ok(w) => file_expert(st.held(), st.listed(), *c, l as int, e as int) is Ok && w.is_from(
                *c,
                file_expert(st.held(), st.listed(), *c, l as int, e as int)->Ok_0,
            ),
            Err(f) => file_expert(st.held(), st.listed(), *c, l as int, e as int) == Err::<
                Seq<TensorHolds>,
                StErrorView,
            >(f@),
        },
{
    let slots: Vec<Slot> = slots_of_expert(c, at, l, e);
    let ghost want = expert_slots(*c, l as int, e as int);
    let ghost (data, list) = (st.held(), st.listed());
    match fetch(st, &slots) {
        Err(f) => Err(f),
        Ok(got) => {
            let mut rest: Vec<Tensor> = got;
            let ghost held = tensor_list(rest@);
            let second: Tensor = take_last(&mut rest, 1);
            let first: Tensor = take_last(&mut rest, 0);
            proof {
                let one = want.drop_last();
                assert(want.last() == want[1] && one.last() == want[0]);
                assert(one.drop_last() =~= Seq::<SlotView>::empty());
                reveal_with_fuel(in_file, 3);
                assert(held[0] == first@ && held[1] == second@);
                assert(slot_in_file(data, list, want[0]) == Ok::<TensorHolds, StErrorView>(held[0]));
                lemma_file_len(data, list, want[0]);
                assert(c.moe_inter * c.hidden <= 2 * c.moe_inter * c.hidden) by (nonlinear_arith)
                    requires
                        0 <= c.moe_inter,
                        0 <= c.hidden,
                ;
            }
            let half: usize = c.moe_inter * c.hidden;
            let (gate, up) = halved(vector_from(first), half);
            let down: Vec<u32> = vector_from(second);
            Ok(
                ExpertWeights {
                    gate: Wt { f: gate, bytes: None, o: c.moe_inter, i: c.hidden },
                    up: Wt { f: up, bytes: None, o: c.moe_inter, i: c.hidden },
                    down: Wt { f: down, bytes: None, o: c.hidden, i: c.moe_inter },
                },
            )
        },
    }
}

/// Whether a layer is what a file has for it.
pub open spec fn layer_is_filed(w: Layer, data: Seq<Option<Seq<u8>>>, list: Seq<StTensorView>, c: Cfg, l: int) -> bool {
    file_layer(data, list, c, l) is Ok && w.is_from(
        c,
        l,
        layer_slots(c, file_layers(), l),
        file_layer(data, list, c, l)->Ok_0,
    )
}

/// Whether an expert is what a file has for it.
pub open spec fn expert_is_filed(
    w: ExpertWeights,
    data: Seq<Option<Seq<u8>>>,
    list: Seq<StTensorView>,
    c: Cfg,
    l: int,
    e: int,
) -> bool {
    file_expert(data, list, c, l, e) is Ok && w.is_from(c, file_expert(data, list, c, l, e)->Ok_0)
}

/// Whether the experts of a layer are what a file has for them.
pub open spec fn experts_are_filed(
    v: Seq<ExpertWeights>,
    data: Seq<Option<Seq<u8>>>,
    list: Seq<StTensorView>,
    c: Cfg,
    l: int,
) -> bool {
    v.len() == c.experts && forall|e: int|
        0 <= e < v.len() ==> expert_is_filed(#[trigger] v[e], data, list, c, l, e)
}

/// The slots at the places of vectors hold none but vectors.
proof fn lemma_vector_places(c: Cfg, prefix: Seq<char>, l: int)
    ensures
        layer_slots(c, prefix, l).len() == LAYER_SLOTS,
        forall|k: int|
            0 <= k < LAYER_SLOTS && is_vector_place(k) ==> !(#[trigger] layer_slots(
                c,
                prefix,
                l,
            )[k] is Matrix),
{
}

/// Loads a layer from a file.
fn load_layer(st: &StFile, c: &Cfg, l: usize) -> (r: Result<Layer, StError>)
    requires
        st.wf(),
        widths_fit(*c),
        l < c.gdn_layers@.len(),
        l < c.qsa_layers@.len(),
    ensures
        match r {
            Ok(w) => layer_is_filed(w, st.held(), st.listed(), *c, l as int),
            Err(e) => file_layer(st.held(), st.listed(), *c, l as int) == Err::<
                Seq<TensorHolds>,
                StErrorView,
            >(e@),
        },
{
    let slots: Vec<Slot> = slots_of_layer(c, "model.layers.", l);
    match fetch(st, &slots) {
        Err(e) => Err(e),
        Ok(got) => {
            proof {
                lemma_vector_places(*c, file_layers(), l as int);
                let sv = slot_views(slots@);
                assert forall|k: int| 0 <= k < LAYER_SLOTS && is_vector_place(k) implies !(
                #[trigger] slots@[k]@ is Matrix) by {
                    assert(sv[k] == slots@[k]@);
                }
                let held = tensor_list(got@);
                assert forall|k: int| 0 <= k < sv.len() implies (#[trigger] sv[k] is Matrix
                    || held[k] is Singles) by {
                    assert(got@[k]@ is Singles);
                }
            }
            Ok(layer_from(c, l, &slots, got))
        },
    }
}

/// Loads the experts of a layer from a file.
fn load_experts(st: &StFile, c: &Cfg, l: usize) -> (r: Result<Vec<ExpertWeights>, StError>)
    requires
        st.wf(),
        widths_fit(*c),
    ensures
        match r {
            Ok(v) => experts_are_filed(v@, st.held(), st.listed(), *c, l as int) && experts_fault(
                st.held(),
                st.listed(),
                *c,
                l as int,
                c.experts as int,
            ) is None,
            Err(e) => experts_fault(st.held(), st.listed(), *c, l as int, c.experts as int) == Some(
                e@,
            ),
        },
{
    let mut at: String = String::from_str("model.layers.");
    push_decimal(&mut at, l as u64);
    let ghost (data, list) = (st.held(), st.listed());
    let mut v: Vec<ExpertWeights> = Vec::new();
    let mut e: usize = 0;
    while e < c.experts
        invariant
            st.wf(),
            widths_fit(*c),
            data == st.held() && list == st.listed(),
            at@ == layer_name(file_layers(), l as nat),
            e <= c.experts,
            v@.len() == e,
            forall|k: int|
                0 <= k < e ==> expert_is_filed(#[trigger] v@[k], data, list, *c, l as int, k),
            experts_fault(data, list, *c, l as int, e as int) is None,
        decreases c.experts - e,
    {
        match load_expert(st, c, at.as_str(), l, e) {
            Ok(w) => {
                v.push(w);
            },
            Err(f) => {
                proof {
                    lemma_experts_fault_stays(
                        data,
                        list,
                        *c,
                        l as int,
                        e + 1,
                        c.experts as int,
                    );
                }
                return Err(f);
            },
        }
        e = e + 1;
    }
    Ok(v)
}

/// Whether the model has an n-gram memory with heads.
pub open spec fn has_heads(c: Cfg) -> bool {
    c.ple_layer >= 0 && c.ngram_heads > 0
}

/// The tensors of the n-gram memory, its table aside.
pub open spec fn memory_slots(c: Cfg, at: Seq<char>) -> Seq<SlotView> {
    let on = c.ple_layer >= 0;
    let (hcd, dim) = (lane_width(c), c.ple_embed_dim as int);
    seq![
        matrix_slot(on, at, ".key_proj.weight"@, hcd, dim),
        matrix_slot(on, at, ".value_proj.weight"@, c.hidden as int, dim),
        vector_slot(on, at, ".norm_key.weight"@, hcd),
        vector_slot(on, at, ".norm_query.weight"@, hcd),
        vector_slot(on, at, ".norm_conv.weight"@, hcd),
        vector_slot(on, at, ".conv1d.weight"@, hcd * c.ple_conv_kernel),
    ]
}

/// The sizes of the heads of the table.
pub open spec fn heads_of(c: Cfg) -> Seq<i64> {
    sizes_of_heads(c.ngram_vocab_base as int, c.ngram_heads as nat)
}

/// The rows that the table of a file has.
pub open spec fn table_rows(c: Cfg) -> usize {
    padded_rows(rows_before(heads_of(c), c.ngram_heads as int), c.ngram_div as int) as usize
}

/// Whether the rows of the table and the multipliers can be computed, where the model has such a
/// table.
pub open spec fn table_fits(c: Cfg) -> bool {
    has_heads(c) ==> {
        &&& c.ngram_heads < i64::MAX
        &&& can_be_laid_out(c.ngram_vocab_base as int, c.ngram_heads as nat)
        &&& c.ngram_div != 0
        &&& i64::MIN <= rows_before(heads_of(c), c.ngram_heads as int) + c.ngram_div - 1
            <= i64::MAX
        &&& c.vocab <= i64::MAX
        &&& c.seed + 10007u64.wrapping_mul(c.ple_layer as u64) <= u64::MAX
    }
}

/// Whether the rows of the table and the multipliers can be computed.
pub fn memory_fits(c: &Cfg) -> (r: bool)
    ensures
        r == table_fits(*c),
{
    if c.ple_layer < 0 || c.ngram_heads == 0 {
        return true;
    }
    if c.ngram_div == 0 || c.ngram_heads as u128 >= i64::MAX as u128 || c.vocab as u128
        > i64::MAX as u128 {
        return false;
    }
    if c.seed.checked_add(10007u64.wrapping_mul(c.ple_layer as u64)).is_none() {
        return false;
    }
    match ple_layout(c.ngram_vocab_base, c.ngram_heads) {
        None => false,
        Some(l) => {
            proof {
                lemma_sizes_of_heads(l.sizes@, c.ngram_vocab_base as int, c.ngram_heads as nat);
            }
            let a: i128 = l.total as i128 + c.ngram_div as i128 - 1;
            i64::MIN as i128 <= a && a <= i64::MAX as i128
        },
    }
}

/// The tensors of a file that belong to no layer, up to the last norm.
pub open spec fn file_top(c: Cfg) -> Seq<SlotView> {
    let none = Seq::<char>::empty();
    let table = matrix_slot(
        has_heads(c),
        none,
        "model.ple.ple_embedding.ngram_embedding.weight"@,
        table_rows(c) as int,
        c.ple_embed_dim as int / c.ngram_heads as int,
    );
    seq![table] + memory_slots(c, "model.ple"@) + seq![
        matrix_slot(true, none, "model.embed_tokens.weight"@, c.vocab as int, c.hidden as int),
        matrix_slot(true, none, "lm_head.weight"@, c.vocab as int, c.hidden as int),
    ]
}

/// The tensors of the mixer behind the last layer.
pub open spec fn mixer_slots(c: Cfg, at: Seq<char>) -> Seq<SlotView> {
    seq![
        vector_slot(true, at, ".hc_norm.weight"@, lane_width(c)),
        matrix_slot(
            true,
            at,
            ".input_mix_weight_down.weight"@,
            c.hc_lowrank as int,
            lane_width(c),
        ),
        matrix_slot(true, at, ".input_mix_weight_up.weight"@, lane_width(c), c.hc_lowrank as int),
    ]
}

/// The tensors of a package that belong to no layer, behind the last norm.
pub open spec fn record_top(c: Cfg) -> Seq<SlotView> {
    let none = Seq::<char>::empty();
    seq![
        matrix_slot(true, none, "embed.weight"@, c.vocab as int, c.hidden as int),
        matrix_slot(true, none, "head.weight"@, c.vocab as int, c.hidden as int),
    ] + mixer_slots(c, "hyper_connection_mixer"@)
}

fn push_memory_slots(r: &mut Vec<Slot>, c: &Cfg, at: &str)
    requires
        widths_fit(*c),
    ensures
        slot_views(final(r)@) == slot_views(old(r)@) + memory_slots(*c, at@),
{
    let on: bool = c.ple_layer >= 0;
    let hcd: usize = c.hc_count * c.hidden;
    let ghost before = slot_views(r@);
    r.push(matrix(on, at, ".key_proj.weight", hcd, c.ple_embed_dim));
    r.push(matrix(on, at, ".value_proj.weight", c.hidden, c.ple_embed_dim));
    r.push(vector(on, at, ".norm_key.weight", hcd));
    r.push(vector(on, at, ".norm_query.weight", hcd));
    r.push(vector(on, at, ".norm_conv.weight", hcd));
    r.push(vector(on, at, ".conv1d.weight", hcd * c.ple_conv_kernel));
    assert(slot_views(r@) =~= before + memory_slots(*c, at@));
}

fn push_mixer_slots(r: &mut Vec<Slot>, c: &Cfg, at: &str)
    requires
        widths_fit(*c),
    ensures
        slot_views(final(r)@) == slot_views(old(r)@) + mixer_slots(*c, at@),
{
    let hcd: usize = c.hc_count * c.hidden;
    let ghost before = slot_views(r@);
    r.push(vector(true, at, ".hc_norm.weight", hcd));
    r.push(matrix(true, at, ".input_mix_weight_down.weight", c.hc_lowrank, hcd));
    r.push(matrix(true, at, ".input_mix_weight_up.weight", hcd, c.hc_lowrank));
    assert(slot_views(r@) =~= before + mixer_slots(*c, at@));
}

/// The sizes of the heads, where they begin, and the rows of all of them.
fn lay_heads(c: &Cfg) -> (r: (Vec<i64>, Vec<i64>, i64))
    requires
        c.ngram_heads < i64::MAX,
        can_be_laid_out(c.ngram_vocab_base as int, c.ngram_heads as nat),
    ensures
        r.0@ == heads_of(*c),
        r.1@ == offsets_of_heads(heads_of(*c)),
        r.2 == rows_before(heads_of(*c), c.ngram_heads as int),
{
    match ple_layout(c.ngram_vocab_base, c.ngram_heads) {
        Some(l) => {
            proof {
                lemma_sizes_of_heads(l.sizes@, c.ngram_vocab_base as int, c.ngram_heads as nat);
            }
            assert(l.offsets@ =~= offsets_of_heads(heads_of(*c)));
            (l.sizes, l.offsets, l.total)
        },
        None => {
            assert(false);
            (Vec::new(), Vec::new(), 0)
        },
    }
}

fn file_top_slots(c: &Cfg, rows: usize) -> (r: Vec<Slot>)
    requires
        widths_fit(*c),
        has_heads(*c) ==> rows == table_rows(*c),
    ensures
        slot_views(r@) == file_top(*c),
        r@.len() == 9,
{
    proof {
        reveal_strlit("");
        assert(""@ =~= Seq::<char>::empty());
    }
    let heads: bool = c.ple_layer >= 0 && c.ngram_heads > 0;
    let mut r: Vec<Slot> = Vec::new();
    if heads {
        r.push(
            matrix(
                true,
                "",
                "model.ple.ple_embedding.ngram_embedding.weight",
                rows,
                c.ple_embed_dim / c.ngram_heads,
            ),
        );
    } else {
        r.push(Slot::Absent);
    }
    let ghost want = file_top(*c);
    assert(slot_views(r@) =~= seq![want[0]]);
    push_memory_slots(&mut r, c, "model.ple");
    let ghost before = slot_views(r@);
    assert(before =~= want.take(7));
    r.push(matrix(true, "", "model.embed_tokens.weight", c.vocab, c.hidden));
    r.push(matrix(true, "", "lm_head.weight", c.vocab, c.hidden));
    assert(slot_views(r@) =~= before.push(want[7]).push(want[8]));
    assert(slot_views(r@) =~= want);
    assert(slot_views(r@).len() == r@.len());
    r
}

fn record_top_slots(c: &Cfg) -> (r: Vec<Slot>)
    requires
        widths_fit(*c),
    ensures
        slot_views(r@) == record_top(*c),
        r@.len() == 5,
{
    proof {
        reveal_strlit("");
        assert(""@ =~= Seq::<char>::empty());
    }
    let mut r: Vec<Slot> = Vec::new();
    r.push(matrix(true, "", "embed.weight", c.vocab, c.hidden));
    r.push(matrix(true, "", "head.weight", c.vocab, c.hidden));
    push_mixer_slots(&mut r, c, "hyper_connection_mixer");
    assert(slot_views(r@) =~= record_top(*c));
    assert(slot_views(r@).len() == r@.len());
    r
}

/// The mixer behind the last layer.
pub struct HcGlobal {
    pub norm: Vec<u32>,
    pub mix_down: Wt,
    pub mix_up: Wt,
}

/// The weights of a model. Vectors are patterns of singles.
pub struct Model {
    pub cfg: Cfg,
    pub embed: Wt,
    pub lm_head: Wt,
    pub final_norm: Vec<u32>,
    pub layers: Vec<Layer>,
    pub experts: Vec<Vec<ExpertWeights>>,
    pub hc_global: HcGlobal,
    pub ple_ngram: Wt,
    pub ple_key_proj: Wt,
    pub ple_value_proj: Wt,
    pub ple_norm_key: Vec<u32>,
    pub ple_norm_query: Vec<u32>,
    pub ple_norm_conv: Vec<u32>,
    pub ple_conv1d: Vec<u32>,
    pub ple_offsets: Vec<i64>,
    pub ple_sizes: Vec<i64>,
    pub ple_mult: Vec<u64>,
}

/// What a file gives for the tensors that belong to no layer.
pub open spec fn file_tops(data: Seq<Option<Seq<u8>>>, list: Seq<StTensorView>, c: Cfg) -> Result<
    Seq<TensorHolds>,
    StErrorView,
> {
    in_file(data, list, file_top(c))
}

/// What a file gives for the last norm. A model with lanes can do without.
pub open spec fn file_norm(data: Seq<Option<Seq<u8>>>, list: Seq<StTensorView>, c: Cfg) -> Result<
    Seq<u32>,
    StErrorView,
> {
    match load_spec(data, list, "model.norm.weight"@, seq![c.hidden as u64]) {
        Ok(v) => Ok(v),
        Err(e) => if c.hc_count > 0 {
            Ok(Seq::empty())
        } else {
            Err(e)
        },
    }
}

/// What a file gives for the mixer.
pub open spec fn file_mixer(data: Seq<Option<Seq<u8>>>, list: Seq<StTensorView>, c: Cfg) -> Result<
    Seq<TensorHolds>,
    StErrorView,
> {
    in_file(data, list, mixer_slots(c, "model.hyper_connection_mixer"@))
}

/// The first fault on the way through a file: layer by layer, then the tensors
/// that belong to none, the last norm and the mixer.
pub open spec fn load_fault(data: Seq<Option<Seq<u8>>>, list: Seq<StTensorView>, c: Cfg) -> Option<
    StErrorView,
> {
    match layers_fault(data, list, c, c.layers as int) {
        Some(e) => Some(e),
        None => match file_tops(data, list, c) {
            Err(e) => Some(e),
            Ok(_) => match file_norm(data, list, c) {
                Err(e) => Some(e),
                Ok(_) => match file_mixer(data, list, c) {
                    Err(e) => Some(e),
                    Ok(_) => None,
                },
            },
        },
    }
}

impl Model {
    /// Whether the layers and experts are what a file has for them.
    pub open spec fn layers_filed(self, data: Seq<Option<Seq<u8>>>, list: Seq<StTensorView>) -> bool {
        &&& self.layers@.len() == self.cfg.layers
        &&& self.experts@.len() == self.cfg.layers
        &&& forall|l: int|
            0 <= l < self.cfg.layers ==> layer_is_filed(
                #[trigger] self.layers@[l],
                data,
                list,
                self.cfg,
                l,
            )
        &&& forall|l: int|
            0 <= l < self.cfg.layers ==> experts_are_filed(
                (#[trigger] self.experts@[l])@,
                data,
                list,
                self.cfg,
                l,
            )
    }

    /// Whether the other tensors are what was fetched for them.
    pub open spec fn memory_from(self, slots: Seq<SlotView>, got: Seq<TensorHolds>) -> bool {
        &&& matrix_is(self.ple_key_proj, slots[0], got[0])
        &&& matrix_is(self.ple_value_proj, slots[1], got[1])
        &&& vector_is(self.ple_norm_key, got[2])
        &&& vector_is(self.ple_norm_query, got[3])
        &&& vector_is(self.ple_norm_conv, got[4])
        &&& vector_is(self.ple_conv1d, got[5])
    }

    /// Whether the mixer is what was fetched for it.
    pub open spec fn mixer_from(self, slots: Seq<SlotView>, got: Seq<TensorHolds>) -> bool {
        &&& vector_is(self.hc_global.norm, got[0])
        &&& matrix_is(self.hc_global.mix_down, slots[1], got[1])
        &&& matrix_is(self.hc_global.mix_up, slots[2], got[2])
    }

    /// Whether a model is what a file has.
    pub open spec fn is_filed(self, data: Seq<Option<Seq<u8>>>, list: Seq<StTensorView>) -> bool {
        let c = self.cfg;
        let top = file_tops(data, list, c);
        let mixer = file_mixer(data, list, c);
        let slots = file_top(c);
        &&& self.layers_filed(data, list)
        &&& top is Ok && mixer is Ok
        &&& file_norm(data, list, c) == Ok::<Seq<u32>, StErrorView>(self.final_norm@)
        &&& matrix_is(self.ple_ngram, slots[0], (top->Ok_0)[0])
        &&& self.memory_from(slots.subrange(1, 7), (top->Ok_0).subrange(1, 7))
        &&& matrix_is(self.embed, slots[7], (top->Ok_0)[7])
        &&& matrix_is(self.lm_head, slots[8], (top->Ok_0)[8])
        &&& self.mixer_from(mixer_slots(c, "model.hyper_connection_mixer"@), mixer->Ok_0)
        &&& if has_heads(c) {
            &&& self.ple_sizes@ == heads_of(c)
            &&& self.ple_offsets@ == offsets_of_heads(heads_of(c))
            &&& self.ple_mult@ == Seq::new(
                c.ngram_size as nat,
                |i: int| multiplier(c.vocab as int, c.seed, c.ple_layer, i),
            )
        } else {
            &&& self.ple_sizes@.len() == 0
            &&& self.ple_offsets@.len() == 0
            &&& self.ple_mult@.len() == 0
        }
    }
}

/// The layers of a file and their experts.
fn load_layers(st: &StFile, c: &Cfg) -> (r: Result<(Vec<Layer>, Vec<Vec<ExpertWeights>>), StError>)
    requires
        st.wf(),
        widths_fit(*c),
        c.gdn_layers@.len() == c.layers,
        c.qsa_layers@.len() == c.layers,
    ensures
        match r {
            Ok((layers, experts)) => {
                &&& layers_fault(st.held(), st.listed(), *c, c.layers as int) is None
                &&& layers@.len() == c.layers
                &&& experts@.len() == c.layers
                &&& forall|l: int|
                    0 <= l < c.layers ==> layer_is_filed(
                        #[trigger] layers@[l],
                        st.held(),
                        st.listed(),
                        *c,
                        l,
                    )
                &&& forall|l: int|
                    0 <= l < c.layers ==> experts_are_filed(
                        (#[trigger] experts@[l])@,
                        st.held(),
                        st.listed(),
                        *c,
                        l,
                    )
            },
            Err(e) => layers_fault(st.held(), st.listed(), *c, c.layers as int) == Some(e@),
        },
{
    let ghost (data, list) = (st.held(), st.listed());
    let mut layers: Vec<Layer> = Vec::new();
    let mut experts: Vec<Vec<ExpertWeights>> = Vec::new();
    let mut l: usize = 0;
    while l < c.layers
        invariant
            st.wf(),
            widths_fit(*c),
            c.gdn_layers@.len() == c.layers,
            c.qsa_layers@.len() == c.layers,
            data == st.held() && list == st.listed(),
            l <= c.layers,
            layers@.len() == l,
            experts@.len() == l,
            layers_fault(data, list, *c, l as int) is None,
            forall|k: int|
                0 <= k < l ==> layer_is_filed(#[trigger] layers@[k], data, list, *c, k),
            forall|k: int|
                0 <= k < l ==> experts_are_filed((#[trigger] experts@[k])@, data, list, *c, k),
        decreases c.layers - l,
    {
        match load_layer(st, c, l) {
            Err(e) => {
                proof {
                    lemma_layers_fault_stays(data, list, *c, l + 1, c.layers as int);
                }
                return Err(e);
            },
            Ok(layer) => match load_experts(st, c, l) {
                Err(e) => {
                    proof {
                        lemma_layers_fault_stays(data, list, *c, l + 1, c.layers as int);
                    }
                    return Err(e);
                },
                Ok(v) => {
                    layers.push(layer);
                    experts.push(v);
                },
            },
        }
        l = l + 1;
    }
    Ok((layers, experts))
}

impl Model {
    /// Loads a model from a file of tensors.
    #[verifier::rlimit(40)]
    pub fn load(st: &StFile, cfg: Cfg) -> (r: Result<Model, StError>)
        requires
            st.wf(),
            widths_fit(cfg),
            cfg.gdn_layers@.len() == cfg.layers,
            cfg.qsa_layers@.len() == cfg.layers,
            table_fits(cfg),
        ensures
            match r {
                Ok(m) => m.cfg == cfg && load_fault(st.held(), st.listed(), cfg) is None
                    && m.is_filed(st.held(), st.listed()),
                Err(e) => load_fault(st.held(), st.listed(), cfg) == Some(e@),
            },
    {
        let ghost (data, list) = (st.held(), st.listed());
        let (layers, experts) = match load_layers(st, &cfg) {
            Ok(v) => v,
            Err(e) => {
                return Err(e);
            },
        };
        let heads: bool = cfg.ple_layer >= 0 && cfg.ngram_heads > 0;
        let (sizes, offsets, rows): (Vec<i64>, Vec<i64>, usize) = if heads {
            let (sizes, offsets, total) = lay_heads(&cfg);
            (sizes, offsets, pad_rows(total, cfg.ngram_div) as usize)
        } else {
            (Vec::new(), Vec::new(), 0)
        };
        let slots: Vec<Slot> = file_top_slots(&cfg, rows);
        let ghost sv = slot_views(slots@);
        let got: Vec<Tensor> = match fetch(st, &slots) {
            Ok(v) => v,
            Err(e) => {
                return Err(e);
            },
        };
        let ghost held = tensor_list(got@);
        let mut rest: Vec<Tensor> = got;
        let t8: Tensor = take_last(&mut rest, 8);
        let t7: Tensor = take_last(&mut rest, 7);
        let t6: Tensor = take_last(&mut rest, 6);
        let t5: Tensor = take_last(&mut rest, 5);
        let t4: Tensor = take_last(&mut rest, 4);
        let t3: Tensor = take_last(&mut rest, 3);
        let t2: Tensor = take_last(&mut rest, 2);
        let t1: Tensor = take_last(&mut rest, 1);
        let t0: Tensor = take_last(&mut rest, 0);
        proof {
            assert(held[0] == t0@ && held[1] == t1@ && held[2] == t2@);
            assert(held[3] == t3@ && held[4] == t4@ && held[5] == t5@);
            assert(held[6] == t6@ && held[7] == t7@ && held[8] == t8@);
            assert(sv[0] == slots@[0]@ && sv[1] == slots@[1]@ && sv[2] == slots@[2]@);
            assert(sv[7] == slots@[7]@ && sv[8] == slots@[8]@);
            assert(sv.subrange(1, 7)[0] == sv[1] && sv.subrange(1, 7)[1] == sv[2]);
            assert(forall|k: int| 0 <= k < 6 ==> #[trigger] held.subrange(1, 7)[k] == held[k + 1]);
        }
        let mut shape: Vec<u64> = Vec::new();
        shape.push(cfg.hidden as u64);
        assert(shape@ =~= seq![cfg.hidden as u64]);
        let final_norm: Vec<u32> = match st.f32_bits("model.norm.weight", &shape) {
            Ok(v) => v,
            Err(e) => {
                if cfg.hc_count == 0 {
                    return Err(e);
                }
                let none: Vec<u32> = Vec::new();
                assert(none@ =~= Seq::<u32>::empty());
                none
            },
        };
        let mut mixer: Vec<Slot> = Vec::new();
        push_mixer_slots(&mut mixer, &cfg, "model.hyper_connection_mixer");
        let ghost mv = slot_views(mixer@);
        proof {
            assert(mv =~= mixer_slots(cfg, "model.hyper_connection_mixer"@));
            assert(mv.len() == mixer@.len());
        }
        let mixed: Vec<Tensor> = match fetch(st, &mixer) {
            Ok(v) => v,
            Err(e) => {
                return Err(e);
            },
        };
        let ghost mheld = tensor_list(mixed@);
        let mut left: Vec<Tensor> = mixed;
        let m2: Tensor = take_last(&mut left, 2);
        let m1: Tensor = take_last(&mut left, 1);
        let m0: Tensor = take_last(&mut left, 0);
        proof {
            assert(mheld[0] == m0@ && mheld[1] == m1@ && mheld[2] == m2@);
            assert(mv[1] == mixer@[1]@ && mv[2] == mixer@[2]@);
        }
        let mult: Vec<u64> = if heads {
            ple_multipliers(cfg.vocab, cfg.seed, cfg.ple_layer, cfg.ngram_size)
        } else {
            Vec::new()
        };
        let hc_global = HcGlobal {
            norm: vector_from(m0),
            mix_down: matrix_from(&mixer[1], m1),
            mix_up: matrix_from(&mixer[2], m2),
        };
        Ok(
            Model {
                cfg,
                embed: matrix_from(&slots[7], t7),
                lm_head: matrix_from(&slots[8], t8),
                final_norm,
                layers,
                experts,
                hc_global,
                ple_ngram: matrix_from(&slots[0], t0),
                ple_key_proj: matrix_from(&slots[1], t1),
                ple_value_proj: matrix_from(&slots[2], t2),
                ple_norm_key: vector_from(t3),
                ple_norm_query: vector_from(t4),
                ple_norm_conv: vector_from(t5),
                ple_conv1d: vector_from(t6),
                ple_offsets: offsets,
                ple_sizes: sizes,
                ple_mult: mult,
            },
        )
    }
}

/// The tensors of the first `n` experts of a layer.
pub open spec fn experts_needs(c: Cfg, l: int, n: int) -> Seq<SlotView>
    decreases n,
{
    if n <= 0 {
        Seq::empty()
    } else {
        experts_needs(c, l, n - 1) + expert_slots(c, l, n - 1)
    }
}

/// The tensors of the first `n` layers and of their experts.
pub open spec fn layers_needs(c: Cfg, n: int) -> Seq<SlotView>
    decreases n,
{
    if n <= 0 {
        Seq::empty()
    } else {
        layers_needs(c, n - 1) + layer_slots(c, file_layers(), n - 1) + experts_needs(
            c,
            n - 1,
            c.experts as int,
        )
    }
}

/// The last norm.
pub open spec fn norm_slot(c: Cfg) -> SlotView {
    vector_slot(true, Seq::empty(), "model.norm.weight"@, c.hidden as int)
}

/// The tensors of a file that a model is loaded from, in the order in which they are asked for.
pub open spec fn file_needs(c: Cfg) -> Seq<SlotView> {
    layers_needs(c, c.layers as int) + file_top(c) + seq![norm_slot(c)] + mixer_slots(
        c,
        "model.hyper_connection_mixer"@,
    )
}

fn append_slots(out: &mut Vec<Slot>, more: Vec<Slot>)
    ensures
        slot_views(final(out)@) == slot_views(old(out)@) + slot_views(more@),
{
    let ghost (a, b) = (out@, more@);
    let mut more: Vec<Slot> = more;
    out.append(&mut more);
    assert(out@ =~= a + b);
    assert(slot_views(out@) =~= slot_views(a) + slot_views(b));
}

impl Model {
    /// The tensors of a file that a model is loaded from: what a caller reads, range by range, before
    /// it loads the model. Nothing else of the file is looked at.
    pub fn needs(cfg: &Cfg) -> (r: Vec<Slot>)
        requires
            widths_fit(*cfg),
            cfg.gdn_layers@.len() == cfg.layers,
            cfg.qsa_layers@.len() == cfg.layers,
            table_fits(*cfg),
        ensures
            slot_views(r@) == file_needs(*cfg),
    {
        let mut r: Vec<Slot> = Vec::new();
        assert(slot_views(r@) =~= layers_needs(*cfg, 0));
        let mut l: usize = 0;
        while l < cfg.layers
            invariant
                widths_fit(*cfg),
                cfg.gdn_layers@.len() == cfg.layers,
                cfg.qsa_layers@.len() == cfg.layers,
                l <= cfg.layers,
                slot_views(r@) == layers_needs(*cfg, l as int),
            decreases cfg.layers - l,
        {
            append_slots(&mut r, slots_of_layer(cfg, "model.layers.", l));
            let mut at: String = String::from_str("model.layers.");
            push_decimal(&mut at, l as u64);
            let ghost before = slot_views(r@);
            assert(before =~= before + experts_needs(*cfg, l as int, 0));
            let mut e: usize = 0;
            while e < cfg.experts
                invariant
                    widths_fit(*cfg),
                    e <= cfg.experts,
                    at@ == layer_name(file_layers(), l as nat),
                    slot_views(r@) == before + experts_needs(*cfg, l as int, e as int),
                decreases cfg.experts - e,
            {
                append_slots(&mut r, slots_of_expert(cfg, at.as_str(), l, e));
                e = e + 1;
                assert(slot_views(r@) =~= before + experts_needs(*cfg, l as int, e as int));
            }
            l = l + 1;
            assert(slot_views(r@) =~= layers_needs(*cfg, l as int));
        }
        let heads: bool = cfg.ple_layer >= 0 && cfg.ngram_heads > 0;
        let rows: usize = if heads {
            let (_, _, total) = lay_heads(cfg);
            pad_rows(total, cfg.ngram_div) as usize
        } else {
            0
        };
        append_slots(&mut r, file_top_slots(cfg, rows));
        proof {
            reveal_strlit("");
            assert(""@ =~= Seq::<char>::empty());
        }
        let ghost before = slot_views(r@);
        r.push(vector(true, "", "model.norm.weight", cfg.hidden));
        assert(slot_views(r@) =~= before + seq![norm_slot(*cfg)]);
        push_mixer_slots(&mut r, cfg, "model.hyper_connection_mixer");
        assert(slot_views(r@) =~= file_needs(*cfg));
        r
    }
}

/// Whether two readings of a file give the same for every slot of a list.
pub open spec fn read_alike(
    a: Seq<Option<Seq<u8>>>,
    b: Seq<Option<Seq<u8>>>,
    list: Seq<StTensorView>,
    slots: Seq<SlotView>,
) -> bool {
    forall|k: int|
        0 <= k < slots.len() ==> slot_in_file(a, list, #[trigger] slots[k]) == slot_in_file(
            b,
            list,
            slots[k],
        )
}

proof fn lemma_read_alike(
    a: Seq<Option<Seq<u8>>>,
    b: Seq<Option<Seq<u8>>>,
    list: Seq<StTensorView>,
    slots: Seq<SlotView>,
)
    requires
        read_alike(a, b, list, slots),
    ensures
        in_file(a, list, slots) == in_file(b, list, slots),
    decreases slots.len(),
{
    if slots.len() > 0 {
        let short = slots.drop_last();
        assert forall|k: int| 0 <= k < short.len() implies slot_in_file(
            a,
            list,
            #[trigger] short[k],
        ) == slot_in_file(b, list, short[k]) by {
            assert(short[k] == slots[k]);
        }
        lemma_read_alike(a, b, list, short);
        assert(slots[slots.len() - 1] == slots.last());
    }
}

proof fn lemma_alike_parts(
    a: Seq<Option<Seq<u8>>>,
    b: Seq<Option<Seq<u8>>>,
    list: Seq<StTensorView>,
    x: Seq<SlotView>,
    y: Seq<SlotView>,
)
    requires
        read_alike(a, b, list, x + y),
    ensures
        read_alike(a, b, list, x),
        read_alike(a, b, list, y),
{
    assert forall|k: int| 0 <= k < x.len() implies slot_in_file(a, list, #[trigger] x[k])
        == slot_in_file(b, list, x[k]) by {
        assert((x + y)[k] == x[k]);
    }
    assert forall|k: int| 0 <= k < y.len() implies slot_in_file(a, list, #[trigger] y[k])
        == slot_in_file(b, list, y[k]) by {
        assert((x + y)[x.len() + k] == y[k]);
    }
}

proof fn lemma_alike_experts(
    a: Seq<Option<Seq<u8>>>,
    b: Seq<Option<Seq<u8>>>,
    list: Seq<StTensorView>,
    c: Cfg,
    l: int,
    n: int,
)
    requires
        read_alike(a, b, list, experts_needs(c, l, n)),
    ensures
        experts_fault(a, list, c, l, n) == experts_fault(b, list, c, l, n),
        forall|e: int|
            0 <= e < n ==> #[trigger] file_expert(a, list, c, l, e) == file_expert(b, list, c, l, e),
    decreases n,
{
    if n > 0 {
        lemma_alike_parts(a, b, list, experts_needs(c, l, n - 1), expert_slots(c, l, n - 1));
        lemma_alike_experts(a, b, list, c, l, n - 1);
        lemma_read_alike(a, b, list, expert_slots(c, l, n - 1));
    }
}

proof fn lemma_alike_layers(
    a: Seq<Option<Seq<u8>>>,
    b: Seq<Option<Seq<u8>>>,
    list: Seq<StTensorView>,
    c: Cfg,
    n: int,
)
    requires
        read_alike(a, b, list, layers_needs(c, n)),
    ensures
        layers_fault(a, list, c, n) == layers_fault(b, list, c, n),
        forall|l: int|
            0 <= l < n ==> #[trigger] file_layer(a, list, c, l) == file_layer(b, list, c, l),
        forall|l: int, e: int|
            0 <= l < n && 0 <= e < c.experts ==> #[trigger] file_expert(a, list, c, l, e)
                == file_expert(b, list, c, l, e),
    decreases n,
{
    if n > 0 {
        let own = layer_slots(c, file_layers(), n - 1);
        let experts = experts_needs(c, n - 1, c.experts as int);
        lemma_alike_parts(a, b, list, layers_needs(c, n - 1) + own, experts);
        lemma_alike_parts(a, b, list, layers_needs(c, n - 1), own);
        lemma_alike_layers(a, b, list, c, n - 1);
        lemma_read_alike(a, b, list, own);
        lemma_alike_experts(a, b, list, c, n - 1, c.experts as int);
    }
}

/// A model is loaded from the tensors that it needs and from nothing else of a file: two readings
/// that give the same for those give the same fault or none, and one model.
pub proof fn law_only_what_is_needed_is_read(
    m: Model,
    a: Seq<Option<Seq<u8>>>,
    b: Seq<Option<Seq<u8>>>,
    list: Seq<StTensorView>,
)
    requires
        read_alike(a, b, list, file_needs(m.cfg)),
    ensures
        load_fault(a, list, m.cfg) == load_fault(b, list, m.cfg),
        m.is_filed(a, list) == m.is_filed(b, list),
{
    let c = m.cfg;
    let mixer = mixer_slots(c, "model.hyper_connection_mixer"@);
    let layers = layers_needs(c, c.layers as int);
    lemma_alike_parts(a, b, list, layers + file_top(c) + seq![norm_slot(c)], mixer);
    lemma_alike_parts(a, b, list, layers + file_top(c), seq![norm_slot(c)]);
    lemma_alike_parts(a, b, list, layers, file_top(c));
    lemma_read_alike(a, b, list, mixer);
    lemma_read_alike(a, b, list, file_top(c));
    lemma_alike_layers(a, b, list, c, c.layers as int);
    assert(seq![norm_slot(c)][0] == norm_slot(c));
    assert(Seq::<char>::empty() + "model.norm.weight"@ =~= "model.norm.weight"@);
    assert(file_norm(a, list, c) == file_norm(b, list, c));
    assert(m.layers_filed(a, list) == m.layers_filed(b, list)) by {
        assert forall|l: int| 0 <= l < c.layers implies layer_is_filed(
            #[trigger] m.layers@[l],
            a,
            list,
            c,
            l,
        ) == layer_is_filed(m.layers@[l], b, list, c, l) by {
            assert(file_layer(a, list, c, l) == file_layer(b, list, c, l));
        }
        assert forall|l: int| 0 <= l < c.layers implies experts_are_filed(
            (#[trigger] m.experts@[l])@,
            a,
            list,
            c,
            l,
        ) == experts_are_filed(m.experts@[l]@, b, list, c, l) by {
            let v = m.experts@[l]@;
            assert forall|e: int| 0 <= e < v.len() && v.len() == c.experts implies expert_is_filed(
                #[trigger] v[e],
                a,
                list,
                c,
                l,
                e,
            ) == expert_is_filed(v[e], b, list, c, l, e) by {
                assert(file_expert(a, list, c, l, e) == file_expert(b, list, c, l, e));
            }
        }
    }
}

/// What the records give for a layer.
pub open spec fn record_layer(r: Records, c: Cfg, l: int) -> Result<Seq<TensorHolds>, RecordErrorView> {
    in_records(r, layer_slots(c, record_layers(), l))
}

/// The first fault among the first `n` layers.
pub open spec fn record_layers_fault(r: Records, c: Cfg, n: int) -> Option<RecordErrorView>
    decreases n,
{
    if n <= 0 {
        None
    } else {
        match record_layers_fault(r, c, n - 1) {
            Some(e) => Some(e),
            None => match record_layer(r, c, n - 1) {
                Err(e) => Some(e),
                Ok(_) => None,
            },
        }
    }
}

/// A fault stays the first.
proof fn lemma_record_layers_fault_stays(r: Records, c: Cfg, n: int, m: int)
    requires
        n <= m,
        record_layers_fault(r, c, n) is Some,
    ensures
        record_layers_fault(r, c, m) == record_layers_fault(r, c, n),
    decreases m - n,
{
    if n < m {
        lemma_record_layers_fault_stays(r, c, n, m - 1);
    }
}

/// The signed numbers of a payload.
pub open spec fn signed_numbers(p: Seq<u8>) -> Seq<i64> {
    Seq::new(
        p.len() / 8,
        |i: int| crate::bytes::signed(crate::gguf::element(p, 0, 8, i), 8) as i64,
    )
}

/// What the records give for a list of signed numbers.
pub open spec fn numbers_in_records(r: Records, name: Seq<char>) -> Result<Seq<i64>, RecordErrorView> {
    match r.dense(name) {
        None => Err(RecordErrorView { fault: RecordFault::Missing, name }),
        Some(p) => if p.len() % 8 != 0 {
            Err(
                RecordErrorView {
                    fault: RecordFault::NotAligned { bytes: p.len() as usize },
                    name,
                },
            )
        } else {
            Ok(signed_numbers(p))
        },
    }
}

/// A list of signed numbers of the records.
fn fetch_numbers(r: &Records, name: &str) -> (v: Result<Vec<i64>, RecordError>)
    ensures
        match v {
            Ok(v) => numbers_in_records(*r, name@) == Ok::<Seq<i64>, RecordErrorView>(v@),
            Err(e) => numbers_in_records(*r, name@) == Err::<Seq<i64>, RecordErrorView>(e@),
        },
{
    match r.rec(name) {
        None => Err(record_error(RecordFault::Missing, name)),
        Some(p) => match crate::colisource::i64_tensor(p.as_slice()) {
            None => Err(record_error(RecordFault::NotAligned { bytes: p.len() }, name)),
            Some(v) => {
                assert(v@ =~= signed_numbers(p@));
                Ok(v)
            },
        },
    }
}

/// What the names of the tensors of the n-gram memory begin with in a package.
pub open spec fn memory_name(c: Cfg) -> Seq<char> {
    "layers."@ + decimal(c.ple_layer as nat) + ".ple"@
}

/// What a package says of the table of a layer: sizes, offsets and multipliers.
pub open spec fn table_in_records(r: Records, layer: i32) -> Result<
    (Seq<i64>, Seq<i64>, Seq<u64>),
    RecordErrorView,
> {
    match numbers_in_records(r, embedding_name(layer, "ngram_heads_vocab_sizes"@)) {
        Err(e) => Err(e),
        Ok(sizes) => match numbers_in_records(r, embedding_name(layer, "ngram_heads_offsets"@)) {
            Err(e) => Err(e),
            Ok(offsets) => match numbers_in_records(
                r,
                embedding_name(layer, "layer_multipliers"@),
            ) {
                Err(e) => Err(e),
                Ok(mult) => Ok((sizes, offsets, mult.map_values(|m: i64| m as u64))),
            },
        },
    }
}

/// What a package says of the table of a model: nothing at all where the model has none.
pub open spec fn table_of(r: Records, c: Cfg) -> Result<
    (Seq<i64>, Seq<i64>, Seq<u64>),
    RecordErrorView,
> {
    if c.ple_layer < 0 {
        Ok((Seq::empty(), Seq::empty(), Seq::empty()))
    } else {
        table_in_records(r, c.ple_layer as i32)
    }
}

/// What a package says of the table of a layer.
pub fn ple_metadata(r: &Records, layer: i32) -> (t: Result<
    (Vec<i64>, Vec<i64>, Vec<u64>),
    RecordError,
>)
    ensures
        match t {
            Ok((sizes, offsets, mult)) => table_in_records(*r, layer) == Ok::<
                (Seq<i64>, Seq<i64>, Seq<u64>),
                RecordErrorView,
            >((sizes@, offsets@, mult@)),
            Err(e) => table_in_records(*r, layer) == Err::<
                (Seq<i64>, Seq<i64>, Seq<u64>),
                RecordErrorView,
            >(e@),
        },
{
    let sizes: Vec<i64> = match fetch_numbers(
        r,
        embedding_tensor(layer, "ngram_heads_vocab_sizes").as_str(),
    ) {
        Ok(v) => v,
        Err(e) => {
            return Err(e);
        },
    };
    let offsets: Vec<i64> = match fetch_numbers(
        r,
        embedding_tensor(layer, "ngram_heads_offsets").as_str(),
    ) {
        Ok(v) => v,
        Err(e) => {
            return Err(e);
        },
    };
    let raw: Vec<i64> = match fetch_numbers(
        r,
        embedding_tensor(layer, "layer_multipliers").as_str(),
    ) {
        Ok(v) => v,
        Err(e) => {
            return Err(e);
        },
    };
    let mut mult: Vec<u64> = Vec::new();
    let mut i: usize = 0;
    while i < raw.len()
        invariant
            i <= raw.len(),
            mult@.len() == i,
            forall|k: int| 0 <= k < i ==> #[trigger] mult@[k] == raw@[k] as u64,
        decreases raw.len() - i,
    {
        mult.push(raw[i] as u64);
        i = i + 1;
    }
    assert(mult@ =~= raw@.map_values(|m: i64| m as u64));
    Ok((sizes, offsets, mult))
}

/// What a package says of the scale of the embedding by token pairs: the pattern of a single.
pub open spec fn scale_in_records(r: Records, layer: i32) -> Result<u32, RecordErrorView> {
    let name = embedding_name(layer, "ngram_embedding.weight_scale"@);
    match r.dense(name) {
        None => Err(RecordErrorView { fault: RecordFault::Missing, name }),
        Some(p) => if p.len() != 2 {
            Err(
                RecordErrorView {
                    fault: RecordFault::Length { bytes: p.len() as usize, o: 1, i: 1 },
                    name,
                },
            )
        } else {
            Ok((le(p, 0, 2) * 65536) as u32)
        },
    }
}

/// The scale of the embedding by token pairs, as the pattern of a single.
pub fn ple_ngram_scale(r: &Records, layer: i32) -> (s: Result<u32, RecordError>)
    ensures
        match s {
            Ok(bits) => scale_in_records(*r, layer) == Ok::<u32, RecordErrorView>(bits),
            Err(e) => scale_in_records(*r, layer) == Err::<u32, RecordErrorView>(e@),
        },
{
    let name: String = embedding_tensor(layer, "ngram_embedding.weight_scale");
    match r.rec(name.as_str()) {
        None => Err(record_error(RecordFault::Missing, name.as_str())),
        Some(p) => {
            if p.len() != 2 {
                return Err(
                    record_error(RecordFault::Length { bytes: p.len(), o: 1, i: 1 }, name.as_str()),
                );
            }
            proof {
                lemma_bases();
                lemma_le_bound(p@, 0, 2);
            }
            Ok(read_le(p.as_slice(), 0, 2) as u32 * 65536)
        },
    }
}

/// What the names of the tensors of the n-gram memory begin with.
fn memory_at(c: &Cfg) -> (r: String)
    requires
        c.ple_layer >= 0,
    ensures
        r@ == memory_name(*c),
{
    let mut at: String = String::from_str("layers.");
    push_decimal(&mut at, c.ple_layer as u64);
    at.append(".ple");
    at
}

/// What the records give for the last norm. A model with lanes can do without the
/// record.
pub open spec fn record_norm(r: Records, c: Cfg) -> Result<TensorHolds, RecordErrorView> {
    if c.hc_count > 0 && r.dense("norm.weight"@) is None {
        Ok(TensorHolds::Singles(Seq::empty()))
    } else {
        slot_in_records(r, SlotView::Vector { name: "norm.weight"@, n: c.hidden as int })
    }
}

/// The configuration with the layer of the n-gram memory that a package names.
pub open spec fn with_memory(r: Records, c: Cfg) -> Cfg {
    match first_ple_layer(r.names@, 0) {
        Some(l) => Cfg { ple_layer: l as i64, ..c },
        None => c,
    }
}

/// Whether a package says nothing of the sizes of the heads.
pub open spec fn without_sizes(r: Records, c: Cfg) -> bool {
    &&& has_heads(c)
    &&& table_of(r, c) is Ok
    &&& (table_of(r, c)->Ok_0).0.len() == 0
}

/// Whether the sizes of the heads can be computed, where a package says nothing of them.
pub open spec fn records_suffice(r: Records, c: Cfg) -> bool {
    without_sizes(r, with_memory(r, c)) ==> {
        &&& c.ngram_heads < i64::MAX
        &&& can_be_laid_out(c.ngram_vocab_base as int, c.ngram_heads as nat)
    }
}

/// Whether the sizes of the heads can be computed, where a package says nothing of them.
pub fn records_fit(r: &Records, c: &Cfg) -> (fit: bool)
    ensures
        fit == records_suffice(*r, *c),
{
    let layer: i64 = match ple_layer(&r.names) {
        Some(l) => l as i64,
        None => c.ple_layer,
    };
    if layer < 0 || c.ngram_heads == 0 {
        return true;
    }
    match ple_metadata(r, layer as i32) {
        Err(_) => true,
        Ok((sizes, _, _)) => sizes.len() > 0 || (c.ngram_heads as u128) < i64::MAX as u128
            && ple_layout(c.ngram_vocab_base, c.ngram_heads).is_some(),
    }
}

/// The first fault on the way through a package: layer by layer, the lists of the
/// table, the tensors of the n-gram memory, the last norm, and the others.
pub open spec fn coli_fault(r: Records, c: Cfg) -> Option<RecordErrorView> {
    match record_layers_fault(r, c, c.layers as int) {
        Some(e) => Some(e),
        None => match table_of(r, c) {
            Err(e) => Some(e),
            Ok(_) => match in_records(r, memory_slots(c, memory_name(c))) {
                Err(e) => Some(e),
                Ok(_) => match record_norm(r, c) {
                    Err(e) => Some(e),
                    Ok(_) => match in_records(r, record_top(c)) {
                        Err(e) => Some(e),
                        Ok(_) => None,
                    },
                },
            },
        },
    }
}

/// Whether a layer is what the records have for it.
pub open spec fn layer_is_recorded(w: Layer, r: Records, c: Cfg, l: int) -> bool {
    record_layer(r, c, l) is Ok && w.is_from(
        c,
        l,
        layer_slots(c, record_layers(), l),
        record_layer(r, c, l)->Ok_0,
    )
}

impl Model {
    /// Whether a model is what the records have. Its experts stay in the package.
    pub open spec fn is_recorded(self, r: Records) -> bool {
        let c = self.cfg;
        let memory = in_records(r, memory_slots(c, memory_name(c)));
        let top = in_records(r, record_top(c));
        let table = table_of(r, c);
        &&& self.layers@.len() == c.layers
        &&& forall|l: int|
            0 <= l < c.layers ==> layer_is_recorded(#[trigger] self.layers@[l], r, c, l)
        &&& self.experts@.len() == 0
        &&& memory is Ok && top is Ok && table is Ok
        &&& self.memory_from(memory_slots(c, memory_name(c)), memory->Ok_0)
        &&& record_norm(r, c) == Ok::<TensorHolds, RecordErrorView>(
            TensorHolds::Singles(self.final_norm@),
        )
        &&& no_matrix(self.ple_ngram)
        &&& matrix_is(self.embed, record_top(c)[0], (top->Ok_0)[0])
        &&& matrix_is(self.lm_head, record_top(c)[1], (top->Ok_0)[1])
        &&& self.mixer_from(record_top(c).skip(2), (top->Ok_0).skip(2))
        &&& self.ple_mult@ == (table->Ok_0).2
        &&& if without_sizes(r, c) {
            &&& self.ple_sizes@ == heads_of(c)
            &&& self.ple_offsets@ == (table->Ok_0).1 + offsets_of_heads(heads_of(c))
        } else {
            self.ple_sizes@ == (table->Ok_0).0 && self.ple_offsets@ == (table->Ok_0).1
        }
    }
}

/// Loads the layers from records.
fn load_record_layers(r: &Records, c: &Cfg) -> (t: Result<Vec<Layer>, RecordError>)
    requires
        widths_fit(*c),
        c.gdn_layers@.len() == c.layers,
        c.qsa_layers@.len() == c.layers,
    ensures
        match t {
            Ok(layers) => {
                &&& record_layers_fault(*r, *c, c.layers as int) is None
                &&& layers@.len() == c.layers
                &&& forall|l: int|
                    0 <= l < c.layers ==> layer_is_recorded(#[trigger] layers@[l], *r, *c, l)
            },
            Err(e) => record_layers_fault(*r, *c, c.layers as int) == Some(e@),
        },
{
    let mut layers: Vec<Layer> = Vec::new();
    let mut l: usize = 0;
    while l < c.layers
        invariant
            widths_fit(*c),
            c.gdn_layers@.len() == c.layers,
            c.qsa_layers@.len() == c.layers,
            l <= c.layers,
            layers@.len() == l,
            record_layers_fault(*r, *c, l as int) is None,
            forall|k: int| 0 <= k < l ==> layer_is_recorded(#[trigger] layers@[k], *r, *c, k),
        decreases c.layers - l,
    {
        let slots: Vec<Slot> = slots_of_layer(c, "layers.", l);
        match fetch_records(r, &slots) {
            Err(e) => {
                proof {
                    lemma_record_layers_fault_stays(*r, *c, l + 1, c.layers as int);
                }
                return Err(e);
            },
            Ok(got) => {
                proof {
                    lemma_vector_places(*c, record_layers(), l as int);
                    let sv = slot_views(slots@);
                    assert forall|k: int| 0 <= k < LAYER_SLOTS && is_vector_place(k) implies !(
                    #[trigger] slots@[k]@ is Matrix) by {
                        assert(sv[k] == slots@[k]@);
                    }
                    let held = tensor_list(got@);
                    assert forall|k: int| 0 <= k < sv.len() implies (#[trigger] sv[k] is Matrix
                        || held[k] is Singles) by {
                        assert(slots@[k]@ is Matrix || got@[k]@ is Singles);
                    }
                }
                layers.push(layer_from(c, l, &slots, got));
            },
        }
        l = l + 1;
    }
    Ok(layers)
}

impl Model {
    /// Loads a model from the records of a package.
    #[verifier::rlimit(40)]
    pub fn load_coli(r: &Records, cfg: Cfg) -> (t: Result<Model, RecordError>)
        requires
            widths_fit(cfg),
            cfg.gdn_layers@.len() == cfg.layers,
            cfg.qsa_layers@.len() == cfg.layers,
            records_suffice(*r, cfg),
        ensures
            match t {
                Ok(m) => m.cfg == with_memory(*r, cfg) && coli_fault(
                    *r,
                    with_memory(*r, cfg),
                ) is None && m.is_recorded(*r),
                Err(e) => coli_fault(*r, with_memory(*r, cfg)) == Some(e@),
            },
    {
        let mut c: Cfg = cfg;
        match ple_layer(&r.names) {
            Some(l) => {
                c.ple_layer = l as i64;
            },
            None => {},
        }
        let layers: Vec<Layer> = match load_record_layers(r, &c) {
            Ok(v) => v,
            Err(e) => {
                return Err(e);
            },
        };
        let (mut sizes, mut offsets, mult) = if c.ple_layer >= 0 {
            match ple_metadata(r, c.ple_layer as i32) {
                Ok(v) => v,
                Err(e) => {
                    return Err(e);
                },
            }
        } else {
            (Vec::new(), Vec::new(), Vec::new())
        };
        if sizes.len() == 0 && c.ple_layer >= 0 && c.ngram_heads > 0 {
            let (computed, mut begins, _) = lay_heads(&c);
            sizes = computed;
            offsets.append(&mut begins);
        }
        let at: String = if c.ple_layer >= 0 {
            memory_at(&c)
        } else {
            String::new()
        };
        let mut slots: Vec<Slot> = Vec::new();
        push_memory_slots(&mut slots, &c, at.as_str());
        let ghost sv = slot_views(slots@);
        proof {
            assert(sv =~= memory_slots(c, at@));
            assert(sv =~= memory_slots(c, memory_name(c)));
            assert(sv.len() == slots@.len());
        }
        let got: Vec<Tensor> = match fetch_records(r, &slots) {
            Ok(v) => v,
            Err(e) => {
                return Err(e);
            },
        };
        let ghost held = tensor_list(got@);
        proof {
            assert(forall|k: int| 0 <= k < 6 ==> sv[k] == slots@[k]@);
            assert(forall|k: int| 2 <= k < 6 ==> #[trigger] got@[k]@ is Singles);
        }
        let mut rest: Vec<Tensor> = got;
        let t5: Tensor = take_last(&mut rest, 5);
        let t4: Tensor = take_last(&mut rest, 4);
        let t3: Tensor = take_last(&mut rest, 3);
        let t2: Tensor = take_last(&mut rest, 2);
        let t1: Tensor = take_last(&mut rest, 1);
        let t0: Tensor = take_last(&mut rest, 0);
        proof {
            assert(held[0] == t0@ && held[1] == t1@ && held[2] == t2@);
            assert(held[3] == t3@ && held[4] == t4@ && held[5] == t5@);
        }
        let final_norm: Vec<u32> = if c.hc_count > 0 && r.rec("norm.weight").is_none() {
            let none: Vec<u32> = Vec::new();
            assert(none@ =~= Seq::<u32>::empty());
            none
        } else {
            let slot: Slot = Slot::Vector { name: String::from_str("norm.weight"), n: c.hidden };
            match fetch_record(r, &slot) {
                Ok(t) => vector_from(t),
                Err(e) => {
                    return Err(e);
                },
            }
        };
        let tops: Vec<Slot> = record_top_slots(&c);
        let ghost tv = slot_views(tops@);
        let topped: Vec<Tensor> = match fetch_records(r, &tops) {
            Ok(v) => v,
            Err(e) => {
                return Err(e);
            },
        };
        let ghost theld = tensor_list(topped@);
        proof {
            assert(forall|k: int| 0 <= k < 5 ==> tv[k] == tops@[k]@);
            assert(topped@[2]@ is Singles) by {
                assert(tv[2] == tops@[2]@);
            }
        }
        let mut left: Vec<Tensor> = topped;
        let m4: Tensor = take_last(&mut left, 4);
        let m3: Tensor = take_last(&mut left, 3);
        let m2: Tensor = take_last(&mut left, 2);
        let m1: Tensor = take_last(&mut left, 1);
        let m0: Tensor = take_last(&mut left, 0);
        proof {
            assert(theld[0] == m0@ && theld[1] == m1@ && theld[2] == m2@);
            assert(theld[3] == m3@ && theld[4] == m4@);
            assert(tv.skip(2)[1] == tv[3] && tv.skip(2)[2] == tv[4]);
            assert(theld.skip(2)[0] == theld[2]);
            assert(theld.skip(2)[1] == theld[3] && theld.skip(2)[2] == theld[4]);
        }
        let hc_global = HcGlobal {
            norm: vector_from(m2),
            mix_down: matrix_from(&tops[3], m3),
            mix_up: matrix_from(&tops[4], m4),
        };
        Ok(
            Model {
                cfg: c,
                embed: matrix_from(&tops[0], m0),
                lm_head: matrix_from(&tops[1], m1),
                final_norm,
                layers,
                experts: Vec::new(),
                hc_global,
                ple_ngram: empty_wt(),
                ple_key_proj: matrix_from(&slots[0], t0),
                ple_value_proj: matrix_from(&slots[1], t1),
                ple_norm_key: vector_from(t2),
                ple_norm_query: vector_from(t3),
                ple_norm_conv: vector_from(t4),
                ple_conv1d: vector_from(t5),
                ple_offsets: offsets,
                ple_sizes: sizes,
                ple_mult: mult,
            },
        )
    }
}

} // verus!
