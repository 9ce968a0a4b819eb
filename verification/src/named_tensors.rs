//! What a loaded model holds, tensor by tensor and by name: every field of a layer is the tensor of its
//! own name, in a file as in a package, and of a tensor that a layer has no use for nothing is held.

use vstd::prelude::*;

use crate::model::{
    expert_is_filed, expert_slots, experts_are_filed, file_layers, file_top, in_file, in_records,
    layer_slots, lemma_file_len, memory_name, memory_slots, mixer_slots, no_matrix, record_layers,
    record_top, slot_in_file, slot_in_records, Model, RecordErrorView, Records, SlotView,
    TensorHolds,
};
use crate::safetensors::{load_spec, StErrorView, StTensorView};
use crate::text::decimal;
use crate::weights::{Wt, WtBytes};

verus! {

/// What has been read of a file: the bytes of its tensors, and their list.
pub struct Filed {
    pub data: Seq<Option<Seq<u8>>>,
    pub list: Seq<StTensorView>,
}

impl Filed {
    /// Whether a matrix is the tensor of a name, of `o` rows and `i` columns.
    pub open spec fn matrix(self, w: Wt, name: Seq<char>, o: int, i: int) -> bool {
        &&& w.o == o
        &&& w.i == i
        &&& w.bytes is None
        &&& load_spec(self.data, self.list, name, seq![o as u64, i as u64]) == Ok::<
            Seq<u32>,
            StErrorView,
        >(w.f@)
    }

    /// Whether a vector is the tensor of a name, of `n` elements.
    pub open spec fn vector(self, v: Vec<u32>, name: Seq<char>, n: int) -> bool {
        load_spec(self.data, self.list, name, seq![n as u64]) == Ok::<Seq<u32>, StErrorView>(v@)
    }
}

/// The payload of the first of the records that are called as a tensor is, the longer name first.
pub open spec fn record_is(r: Records, name: Seq<char>, p: Seq<u8>) -> bool {
    r.dense(name) == Some(p)
}

/// Whether a matrix is the record of a name, of `o` rows and `i` columns of two bytes each.
pub open spec fn record_matrix(r: Records, w: Wt, name: Seq<char>, o: int, i: int) -> bool {
    &&& w.o == o
    &&& w.i == i
    &&& w.f@.len() == 0
    &&& w.bytes matches Some(WtBytes::Bf16 { weights, .. }) && weights@.len() == 2 * (o * i)
        && record_is(r, name, weights@)
}

/// Whether a vector is the record of a name, of `n` elements: the two bytes of each are the upper half
/// of the pattern of a single.
pub open spec fn record_vector(r: Records, v: Vec<u32>, name: Seq<char>, n: int) -> bool {
    exists|p: Seq<u8>|
        {
            &&& #[trigger] record_is(r, name, p)
            &&& p.len() == 2 * n
            &&& v@.len() == n
            &&& forall|k: int|
                0 <= k < n ==> #[trigger] v@[k] == (p[2 * k] + 256 * p[2 * k + 1]) * 65536
        }
}

/// Of slots that are filled, each is.
proof fn lemma_each_in_file(f: Filed, slots: Seq<SlotView>)
    requires
        in_file(f.data, f.list, slots) is Ok,
    ensures
        (in_file(f.data, f.list, slots)->Ok_0).len() == slots.len(),
        forall|k: int|
            0 <= k < slots.len() ==> slot_in_file(f.data, f.list, #[trigger] slots[k]) == Ok::<
                _,
                StErrorView,
            >((in_file(f.data, f.list, slots)->Ok_0)[k]),
    decreases slots.len(),
{
    if slots.len() > 0 {
        let short = slots.drop_last();
        lemma_each_in_file(f, short);
        assert forall|k: int| 0 <= k < slots.len() implies slot_in_file(
            f.data,
            f.list,
            #[trigger] slots[k],
        ) == Ok::<_, StErrorView>((in_file(f.data, f.list, slots)->Ok_0)[k]) by {
            if k < short.len() {
                assert(short[k] == slots[k]);
            }
        }
    }
}

proof fn lemma_each_in_records(r: Records, slots: Seq<SlotView>)
    requires
        in_records(r, slots) is Ok,
    ensures
        (in_records(r, slots)->Ok_0).len() == slots.len(),
        forall|k: int|
            0 <= k < slots.len() ==> slot_in_records(r, #[trigger] slots[k]) == Ok::<
                _,
                RecordErrorView,
            >((in_records(r, slots)->Ok_0)[k]),
    decreases slots.len(),
{
    if slots.len() > 0 {
        let short = slots.drop_last();
        lemma_each_in_records(r, short);
        assert forall|k: int| 0 <= k < slots.len() implies slot_in_records(r, #[trigger] slots[k])
            == Ok::<_, RecordErrorView>((in_records(r, slots)->Ok_0)[k]) by {
            if k < short.len() {
                assert(short[k] == slots[k]);
            }
        }
    }
}

/// The singles that bfloat16 bytes widen to.
proof fn lemma_record_vector(r: Records, v: Vec<u32>, name: Seq<char>, n: int)
    requires
        0 <= n,
        slot_in_records(r, SlotView::Vector { name, n }) == Ok::<_, RecordErrorView>(
            TensorHolds::Singles(v@),
        ),
    ensures
        record_vector(r, v, name, n),
{
    let p = r.dense(name)->0;
    assert(record_is(r, name, p));
    assert forall|k: int| 0 <= k < n implies #[trigger] v@[k] == (p[2 * k] + 256 * p[2 * k + 1])
        * 65536 by {
        crate::bytes::lemma_bases();
        reveal_with_fuel(crate::bytes::le, 3);
        assert(crate::bytes::le(p, 2 * k, 2) == p[2 * k] + 256 * p[2 * k + 1]);
    }
}

/// Linear attention of a layer is held by name: every field is the tensor of a file that is called as it is,
/// and a layer that has none holds nothing there.
#[verifier::rlimit(60)]
pub proof fn law_linear_attention_of_a_file_is_by_name(m: Model, f: Filed, l: int)
    requires
        m.is_filed(f.data, f.list),
        0 <= l < m.cfg.layers,
    ensures
        ({
            let (w, c) = (m.layers@[l], m.cfg);
            &&& w.is_gdn == c.gdn_layers@[l]
            &&& c.gdn_layers@[l] ==> {
                &&& f.vector(w.gdn_a_log, "model.layers."@ + decimal(l as nat) + ".linear_attn.A_log"@, c.lin_v_heads as int)
                &&& f.vector(w.gdn_dt_bias, "model.layers."@ + decimal(l as nat) + ".linear_attn.dt_bias"@, c.lin_v_heads as int)
                &&& f.vector(w.gdn_conv1d, "model.layers."@ + decimal(l as nat) + ".linear_attn.conv1d.weight"@, (c.lin_k_dim * c.lin_k_heads * 2 + c.lin_v_dim * c.lin_v_heads) * c.conv_kernel)
                &&& f.matrix(w.gdn_in_a, "model.layers."@ + decimal(l as nat) + ".linear_attn.in_proj_a.weight"@, c.lin_v_heads as int, c.hidden as int)
                &&& f.matrix(w.gdn_in_b, "model.layers."@ + decimal(l as nat) + ".linear_attn.in_proj_b.weight"@, c.lin_v_heads as int, c.hidden as int)
                &&& f.matrix(w.gdn_in_qkv, "model.layers."@ + decimal(l as nat) + ".linear_attn.in_proj_qkv.weight"@, c.lin_k_dim * c.lin_k_heads * 2 + c.lin_v_dim * c.lin_v_heads, c.hidden as int)
                &&& f.matrix(w.gdn_in_z, "model.layers."@ + decimal(l as nat) + ".linear_attn.in_proj_z.weight"@, c.lin_v_dim * c.lin_v_heads, c.hidden as int)
                &&& f.vector(w.gdn_norm, "model.layers."@ + decimal(l as nat) + ".linear_attn.norm.weight"@, c.lin_v_dim as int)
                &&& f.matrix(w.gdn_out, "model.layers."@ + decimal(l as nat) + ".linear_attn.out_proj.weight"@, c.hidden as int, c.lin_v_dim * c.lin_v_heads)
            }
            &&& !(c.gdn_layers@[l]) ==> {
                &&& w.gdn_a_log@.len() == 0
                &&& w.gdn_dt_bias@.len() == 0
                &&& w.gdn_conv1d@.len() == 0
                &&& no_matrix(w.gdn_in_a)
                &&& no_matrix(w.gdn_in_b)
                &&& no_matrix(w.gdn_in_qkv)
                &&& no_matrix(w.gdn_in_z)
                &&& w.gdn_norm@.len() == 0
                &&& no_matrix(w.gdn_out)
            }
        }),
{
    let (w, c) = (m.layers@[l], m.cfg);
    let slots = layer_slots(c, file_layers(), l);
    assert(slots.len() == 32);
    lemma_each_in_file(f, slots);
    assert(slots[1] == slots[1]);
    assert(slots[2] == slots[2]);
    assert(slots[3] == slots[3]);
    assert(slots[4] == slots[4]);
    assert(slots[5] == slots[5]);
    assert(slots[6] == slots[6]);
    assert(slots[7] == slots[7]);
    assert(slots[8] == slots[8]);
    assert(slots[9] == slots[9]);
}

/// Linear attention of a layer is held by name: every field is the tensor of a package that is called as it is,
/// and a layer that has none holds nothing there.
#[verifier::rlimit(60)]
pub proof fn law_linear_attention_of_a_package_is_by_name(m: Model, r: Records, l: int)
    requires
        m.is_recorded(r),
        0 <= l < m.cfg.layers,
    ensures
        ({
            let (w, c) = (m.layers@[l], m.cfg);
            &&& w.is_gdn == c.gdn_layers@[l]
            &&& c.gdn_layers@[l] ==> {
                &&& record_vector(r, w.gdn_a_log, "layers."@ + decimal(l as nat) + ".linear_attn.A_log"@, c.lin_v_heads as int)
                &&& record_vector(r, w.gdn_dt_bias, "layers."@ + decimal(l as nat) + ".linear_attn.dt_bias"@, c.lin_v_heads as int)
                &&& record_vector(r, w.gdn_conv1d, "layers."@ + decimal(l as nat) + ".linear_attn.conv1d.weight"@, (c.lin_k_dim * c.lin_k_heads * 2 + c.lin_v_dim * c.lin_v_heads) * c.conv_kernel)
                &&& record_matrix(r, w.gdn_in_a, "layers."@ + decimal(l as nat) + ".linear_attn.in_proj_a.weight"@, c.lin_v_heads as int, c.hidden as int)
                &&& record_matrix(r, w.gdn_in_b, "layers."@ + decimal(l as nat) + ".linear_attn.in_proj_b.weight"@, c.lin_v_heads as int, c.hidden as int)
                &&& record_matrix(r, w.gdn_in_qkv, "layers."@ + decimal(l as nat) + ".linear_attn.in_proj_qkv.weight"@, c.lin_k_dim * c.lin_k_heads * 2 + c.lin_v_dim * c.lin_v_heads, c.hidden as int)
                &&& record_matrix(r, w.gdn_in_z, "layers."@ + decimal(l as nat) + ".linear_attn.in_proj_z.weight"@, c.lin_v_dim * c.lin_v_heads, c.hidden as int)
                &&& record_vector(r, w.gdn_norm, "layers."@ + decimal(l as nat) + ".linear_attn.norm.weight"@, c.lin_v_dim as int)
                &&& record_matrix(r, w.gdn_out, "layers."@ + decimal(l as nat) + ".linear_attn.out_proj.weight"@, c.hidden as int, c.lin_v_dim * c.lin_v_heads)
            }
            &&& !(c.gdn_layers@[l]) ==> {
                &&& w.gdn_a_log@.len() == 0
                &&& w.gdn_dt_bias@.len() == 0
                &&& w.gdn_conv1d@.len() == 0
                &&& no_matrix(w.gdn_in_a)
                &&& no_matrix(w.gdn_in_b)
                &&& no_matrix(w.gdn_in_qkv)
                &&& no_matrix(w.gdn_in_z)
                &&& w.gdn_norm@.len() == 0
                &&& no_matrix(w.gdn_out)
            }
        }),
{
    let (w, c) = (m.layers@[l], m.cfg);
    let slots = layer_slots(c, record_layers(), l);
    assert(slots.len() == 32);
    lemma_each_in_records(r, slots);
    assert(slots[1] == slots[1]);
    assert(slots[2] == slots[2]);
    assert(slots[3] == slots[3]);
    assert(slots[4] == slots[4]);
    assert(slots[5] == slots[5]);
    assert(slots[6] == slots[6]);
    assert(slots[7] == slots[7]);
    assert(slots[8] == slots[8]);
    assert(slots[9] == slots[9]);
    if c.gdn_layers@[l] {
        lemma_record_vector(r, w.gdn_a_log, "layers."@ + decimal(l as nat) + ".linear_attn.A_log"@, c.lin_v_heads as int);
    }
    if c.gdn_layers@[l] {
        lemma_record_vector(r, w.gdn_dt_bias, "layers."@ + decimal(l as nat) + ".linear_attn.dt_bias"@, c.lin_v_heads as int);
    }
    if c.gdn_layers@[l] {
        assert((c.lin_k_dim * c.lin_k_heads * 2 + c.lin_v_dim * c.lin_v_heads) * c.conv_kernel >= 0) by (nonlinear_arith)
        requires
            c.lin_k_dim >= 0,
            c.lin_k_heads >= 0,
            c.lin_v_dim >= 0,
            c.lin_v_heads >= 0,
            c.conv_kernel >= 0,
            c.hc_count >= 0,
            c.hidden >= 0,
    ;
    lemma_record_vector(r, w.gdn_conv1d, "layers."@ + decimal(l as nat) + ".linear_attn.conv1d.weight"@, (c.lin_k_dim * c.lin_k_heads * 2 + c.lin_v_dim * c.lin_v_heads) * c.conv_kernel);
    }
    if c.gdn_layers@[l] {
        lemma_record_vector(r, w.gdn_norm, "layers."@ + decimal(l as nat) + ".linear_attn.norm.weight"@, c.lin_v_dim as int);
    }
}

/// Full attention of a layer is held by name: every field is the tensor of a file that is called as it is,
/// and a layer that has none holds nothing there.
#[verifier::rlimit(60)]
pub proof fn law_full_attention_of_a_file_is_by_name(m: Model, f: Filed, l: int)
    requires
        m.is_filed(f.data, f.list),
        0 <= l < m.cfg.layers,
    ensures
        ({
            let (w, c) = (m.layers@[l], m.cfg);
            &&& !c.gdn_layers@[l] ==> {
                &&& f.matrix(w.attn_q, "model.layers."@ + decimal(l as nat) + ".self_attn.q_proj.weight"@, 2 * c.heads * c.head_dim, c.hidden as int)
                &&& f.matrix(w.attn_k, "model.layers."@ + decimal(l as nat) + ".self_attn.k_proj.weight"@, c.kv_heads * c.head_dim, c.hidden as int)
                &&& f.matrix(w.attn_v, "model.layers."@ + decimal(l as nat) + ".self_attn.v_proj.weight"@, c.kv_heads * c.head_dim, c.hidden as int)
                &&& f.matrix(w.attn_o, "model.layers."@ + decimal(l as nat) + ".self_attn.o_proj.weight"@, c.hidden as int, c.heads * c.head_dim)
                &&& f.vector(w.attn_qn, "model.layers."@ + decimal(l as nat) + ".self_attn.q_norm.weight"@, c.head_dim as int)
                &&& f.vector(w.attn_kn, "model.layers."@ + decimal(l as nat) + ".self_attn.k_norm.weight"@, c.head_dim as int)
            }
            &&& !(!c.gdn_layers@[l]) ==> {
                &&& no_matrix(w.attn_q)
                &&& no_matrix(w.attn_k)
                &&& no_matrix(w.attn_v)
                &&& no_matrix(w.attn_o)
                &&& w.attn_qn@.len() == 0
                &&& w.attn_kn@.len() == 0
            }
        }),
{
    let (w, c) = (m.layers@[l], m.cfg);
    let slots = layer_slots(c, file_layers(), l);
    assert(slots.len() == 32);
    lemma_each_in_file(f, slots);
    assert(slots[10] == slots[10]);
    assert(slots[11] == slots[11]);
    assert(slots[12] == slots[12]);
    assert(slots[13] == slots[13]);
    assert(slots[14] == slots[14]);
    assert(slots[15] == slots[15]);
}

/// Full attention of a layer is held by name: every field is the tensor of a package that is called as it is,
/// and a layer that has none holds nothing there.
#[verifier::rlimit(60)]
pub proof fn law_full_attention_of_a_package_is_by_name(m: Model, r: Records, l: int)
    requires
        m.is_recorded(r),
        0 <= l < m.cfg.layers,
    ensures
        ({
            let (w, c) = (m.layers@[l], m.cfg);
            &&& !c.gdn_layers@[l] ==> {
                &&& record_matrix(r, w.attn_q, "layers."@ + decimal(l as nat) + ".self_attn.q_proj.weight"@, 2 * c.heads * c.head_dim, c.hidden as int)
                &&& record_matrix(r, w.attn_k, "layers."@ + decimal(l as nat) + ".self_attn.k_proj.weight"@, c.kv_heads * c.head_dim, c.hidden as int)
                &&& record_matrix(r, w.attn_v, "layers."@ + decimal(l as nat) + ".self_attn.v_proj.weight"@, c.kv_heads * c.head_dim, c.hidden as int)
                &&& record_matrix(r, w.attn_o, "layers."@ + decimal(l as nat) + ".self_attn.o_proj.weight"@, c.hidden as int, c.heads * c.head_dim)
                &&& record_vector(r, w.attn_qn, "layers."@ + decimal(l as nat) + ".self_attn.q_norm.weight"@, c.head_dim as int)
                &&& record_vector(r, w.attn_kn, "layers."@ + decimal(l as nat) + ".self_attn.k_norm.weight"@, c.head_dim as int)
            }
            &&& !(!c.gdn_layers@[l]) ==> {
                &&& no_matrix(w.attn_q)
                &&& no_matrix(w.attn_k)
                &&& no_matrix(w.attn_v)
                &&& no_matrix(w.attn_o)
                &&& w.attn_qn@.len() == 0
                &&& w.attn_kn@.len() == 0
            }
        }),
{
    let (w, c) = (m.layers@[l], m.cfg);
    let slots = layer_slots(c, record_layers(), l);
    assert(slots.len() == 32);
    lemma_each_in_records(r, slots);
    assert(slots[10] == slots[10]);
    assert(slots[11] == slots[11]);
    assert(slots[12] == slots[12]);
    assert(slots[13] == slots[13]);
    assert(slots[14] == slots[14]);
    assert(slots[15] == slots[15]);
    if !c.gdn_layers@[l] {
        lemma_record_vector(r, w.attn_qn, "layers."@ + decimal(l as nat) + ".self_attn.q_norm.weight"@, c.head_dim as int);
    }
    if !c.gdn_layers@[l] {
        lemma_record_vector(r, w.attn_kn, "layers."@ + decimal(l as nat) + ".self_attn.k_norm.weight"@, c.head_dim as int);
    }
}

/// The index of sparse attention of a layer is held by name: every field is the tensor of a file that is called as it is,
/// and a layer that has none holds nothing there.
#[verifier::rlimit(60)]
pub proof fn law_an_index_of_a_file_is_by_name(m: Model, f: Filed, l: int)
    requires
        m.is_filed(f.data, f.list),
        0 <= l < m.cfg.layers,
    ensures
        ({
            let (w, c) = (m.layers@[l], m.cfg);
            &&& w.is_qsa == c.qsa_layers@[l]
            &&& c.qsa_layers@[l] ==> {
                &&& f.matrix(w.index_qk, "model.layers."@ + decimal(l as nat) + ".self_attn.indexer.index_qk_proj.weight"@, c.idx_n_heads * c.idx_head_dim + c.idx_kv_heads * c.idx_head_dim, c.hidden as int)
                &&& f.vector(w.idx_qn, "model.layers."@ + decimal(l as nat) + ".self_attn.indexer.q_layernorm.weight"@, c.idx_head_dim as int)
                &&& f.vector(w.idx_kn, "model.layers."@ + decimal(l as nat) + ".self_attn.indexer.k_layernorm.weight"@, c.idx_head_dim as int)
            }
            &&& !(c.qsa_layers@[l]) ==> {
                &&& no_matrix(w.index_qk)
                &&& w.idx_qn@.len() == 0
                &&& w.idx_kn@.len() == 0
            }
        }),
{
    let (w, c) = (m.layers@[l], m.cfg);
    let slots = layer_slots(c, file_layers(), l);
    assert(slots.len() == 32);
    lemma_each_in_file(f, slots);
    assert(slots[16] == slots[16]);
    assert(slots[17] == slots[17]);
    assert(slots[18] == slots[18]);
}

/// The index of sparse attention of a layer is held by name: every field is the tensor of a package that is called as it is,
/// and a layer that has none holds nothing there.
#[verifier::rlimit(60)]
pub proof fn law_an_index_of_a_package_is_by_name(m: Model, r: Records, l: int)
    requires
        m.is_recorded(r),
        0 <= l < m.cfg.layers,
    ensures
        ({
            let (w, c) = (m.layers@[l], m.cfg);
            &&& w.is_qsa == c.qsa_layers@[l]
            &&& c.qsa_layers@[l] ==> {
                &&& record_matrix(r, w.index_qk, "layers."@ + decimal(l as nat) + ".self_attn.indexer.index_qk_proj.weight"@, c.idx_n_heads * c.idx_head_dim + c.idx_kv_heads * c.idx_head_dim, c.hidden as int)
                &&& record_vector(r, w.idx_qn, "layers."@ + decimal(l as nat) + ".self_attn.indexer.q_layernorm.weight"@, c.idx_head_dim as int)
                &&& record_vector(r, w.idx_kn, "layers."@ + decimal(l as nat) + ".self_attn.indexer.k_layernorm.weight"@, c.idx_head_dim as int)
            }
            &&& !(c.qsa_layers@[l]) ==> {
                &&& no_matrix(w.index_qk)
                &&& w.idx_qn@.len() == 0
                &&& w.idx_kn@.len() == 0
            }
        }),
{
    let (w, c) = (m.layers@[l], m.cfg);
    let slots = layer_slots(c, record_layers(), l);
    assert(slots.len() == 32);
    lemma_each_in_records(r, slots);
    assert(slots[16] == slots[16]);
    assert(slots[17] == slots[17]);
    assert(slots[18] == slots[18]);
    if c.qsa_layers@[l] {
        lemma_record_vector(r, w.idx_qn, "layers."@ + decimal(l as nat) + ".self_attn.indexer.q_layernorm.weight"@, c.idx_head_dim as int);
    }
    if c.qsa_layers@[l] {
        lemma_record_vector(r, w.idx_kn, "layers."@ + decimal(l as nat) + ".self_attn.indexer.k_layernorm.weight"@, c.idx_head_dim as int);
    }
}

/// The first norm of a model of one stream of a layer is held by name: every field is the tensor of a file that is called as it is,
/// and a layer that has none holds nothing there.
#[verifier::rlimit(60)]
pub proof fn law_a_norm_of_a_file_is_by_name(m: Model, f: Filed, l: int)
    requires
        m.is_filed(f.data, f.list),
        0 <= l < m.cfg.layers,
    ensures
        ({
            let (w, c) = (m.layers@[l], m.cfg);
            &&& c.hc_count == 0 ==> {
                &&& f.vector(w.in_ln, "model.layers."@ + decimal(l as nat) + ".input_layernorm.weight"@, c.hidden as int)
            }
            &&& !(c.hc_count == 0) ==> {
                &&& w.in_ln@.len() == 0
            }
        }),
{
    let (w, c) = (m.layers@[l], m.cfg);
    let slots = layer_slots(c, file_layers(), l);
    assert(slots.len() == 32);
    lemma_each_in_file(f, slots);
    assert(slots[0] == slots[0]);
}

/// The first norm of a model of one stream of a layer is held by name: every field is the tensor of a package that is called as it is,
/// and a layer that has none holds nothing there.
#[verifier::rlimit(60)]
pub proof fn law_a_norm_of_a_package_is_by_name(m: Model, r: Records, l: int)
    requires
        m.is_recorded(r),
        0 <= l < m.cfg.layers,
    ensures
        ({
            let (w, c) = (m.layers@[l], m.cfg);
            &&& c.hc_count == 0 ==> {
                &&& record_vector(r, w.in_ln, "layers."@ + decimal(l as nat) + ".input_layernorm.weight"@, c.hidden as int)
            }
            &&& !(c.hc_count == 0) ==> {
                &&& w.in_ln@.len() == 0
            }
        }),
{
    let (w, c) = (m.layers@[l], m.cfg);
    let slots = layer_slots(c, record_layers(), l);
    assert(slots.len() == 32);
    lemma_each_in_records(r, slots);
    assert(slots[0] == slots[0]);
    if c.hc_count == 0 {
        lemma_record_vector(r, w.in_ln, "layers."@ + decimal(l as nat) + ".input_layernorm.weight"@, c.hidden as int);
    }
}

/// The mixers of the streams of a layer are held by name: every field is the tensor of a file that is called as it is.
#[verifier::rlimit(60)]
pub proof fn law_lanes_of_a_file_are_by_name(m: Model, f: Filed, l: int)
    requires
        m.is_filed(f.data, f.list),
        0 <= l < m.cfg.layers,
    ensures
        ({
            let (w, c) = (m.layers@[l], m.cfg);
            &&& f.vector(w.hc_norm, "model.layers."@ + decimal(l as nat) + ".attn_hyper_connection.hc_norm.weight"@, c.hc_count * c.hidden)
            &&& f.matrix(w.hc_mix_down, "model.layers."@ + decimal(l as nat) + ".attn_hyper_connection.input_mix_weight_down.weight"@, c.hc_lowrank as int, c.hc_count * c.hidden)
            &&& f.matrix(w.hc_mix_up, "model.layers."@ + decimal(l as nat) + ".attn_hyper_connection.input_mix_weight_up.weight"@, c.hc_count * c.hidden, c.hc_lowrank as int)
            &&& f.matrix(w.hc_inject, "model.layers."@ + decimal(l as nat) + ".attn_hyper_connection.block_inject_weight.weight"@, c.hc_count as int, c.hc_count * c.hidden)
            &&& f.vector(w.hc_mlp_norm, "model.layers."@ + decimal(l as nat) + ".mlp_hyper_connection.hc_norm.weight"@, c.hc_count * c.hidden)
            &&& f.matrix(w.hc_mlp_mix_down, "model.layers."@ + decimal(l as nat) + ".mlp_hyper_connection.input_mix_weight_down.weight"@, c.hc_lowrank as int, c.hc_count * c.hidden)
            &&& f.matrix(w.hc_mlp_mix_up, "model.layers."@ + decimal(l as nat) + ".mlp_hyper_connection.input_mix_weight_up.weight"@, c.hc_count * c.hidden, c.hc_lowrank as int)
            &&& f.matrix(w.hc_mlp_inject, "model.layers."@ + decimal(l as nat) + ".mlp_hyper_connection.block_inject_weight.weight"@, c.hc_count as int, c.hc_count * c.hidden)
        }),
{
    let (w, c) = (m.layers@[l], m.cfg);
    let slots = layer_slots(c, file_layers(), l);
    assert(slots.len() == 32);
    lemma_each_in_file(f, slots);
    assert(slots[19] == slots[19]);
    assert(slots[20] == slots[20]);
    assert(slots[21] == slots[21]);
    assert(slots[22] == slots[22]);
    assert(slots[23] == slots[23]);
    assert(slots[24] == slots[24]);
    assert(slots[25] == slots[25]);
    assert(slots[26] == slots[26]);
}

/// The mixers of the streams of a layer are held by name: every field is the tensor of a package that is called as it is.
#[verifier::rlimit(60)]
pub proof fn law_lanes_of_a_package_are_by_name(m: Model, r: Records, l: int)
    requires
        m.is_recorded(r),
        0 <= l < m.cfg.layers,
    ensures
        ({
            let (w, c) = (m.layers@[l], m.cfg);
            &&& record_vector(r, w.hc_norm, "layers."@ + decimal(l as nat) + ".attn_hyper_connection.hc_norm.weight"@, c.hc_count * c.hidden)
            &&& record_matrix(r, w.hc_mix_down, "layers."@ + decimal(l as nat) + ".attn_hyper_connection.input_mix_weight_down.weight"@, c.hc_lowrank as int, c.hc_count * c.hidden)
            &&& record_matrix(r, w.hc_mix_up, "layers."@ + decimal(l as nat) + ".attn_hyper_connection.input_mix_weight_up.weight"@, c.hc_count * c.hidden, c.hc_lowrank as int)
            &&& record_matrix(r, w.hc_inject, "layers."@ + decimal(l as nat) + ".attn_hyper_connection.block_inject_weight.weight"@, c.hc_count as int, c.hc_count * c.hidden)
            &&& record_vector(r, w.hc_mlp_norm, "layers."@ + decimal(l as nat) + ".mlp_hyper_connection.hc_norm.weight"@, c.hc_count * c.hidden)
            &&& record_matrix(r, w.hc_mlp_mix_down, "layers."@ + decimal(l as nat) + ".mlp_hyper_connection.input_mix_weight_down.weight"@, c.hc_lowrank as int, c.hc_count * c.hidden)
            &&& record_matrix(r, w.hc_mlp_mix_up, "layers."@ + decimal(l as nat) + ".mlp_hyper_connection.input_mix_weight_up.weight"@, c.hc_count * c.hidden, c.hc_lowrank as int)
            &&& record_matrix(r, w.hc_mlp_inject, "layers."@ + decimal(l as nat) + ".mlp_hyper_connection.block_inject_weight.weight"@, c.hc_count as int, c.hc_count * c.hidden)
        }),
{
    let (w, c) = (m.layers@[l], m.cfg);
    let slots = layer_slots(c, record_layers(), l);
    assert(slots.len() == 32);
    lemma_each_in_records(r, slots);
    assert(slots[19] == slots[19]);
    assert(slots[20] == slots[20]);
    assert(slots[21] == slots[21]);
    assert(slots[22] == slots[22]);
    assert(slots[23] == slots[23]);
    assert(slots[24] == slots[24]);
    assert(slots[25] == slots[25]);
    assert(slots[26] == slots[26]);
    assert(c.hc_count * c.hidden >= 0) by (nonlinear_arith)
        requires
            c.lin_k_dim >= 0,
            c.lin_k_heads >= 0,
            c.lin_v_dim >= 0,
            c.lin_v_heads >= 0,
            c.conv_kernel >= 0,
            c.hc_count >= 0,
            c.hidden >= 0,
    ;
    lemma_record_vector(r, w.hc_norm, "layers."@ + decimal(l as nat) + ".attn_hyper_connection.hc_norm.weight"@, c.hc_count * c.hidden);
    assert(c.hc_count * c.hidden >= 0) by (nonlinear_arith)
        requires
            c.lin_k_dim >= 0,
            c.lin_k_heads >= 0,
            c.lin_v_dim >= 0,
            c.lin_v_heads >= 0,
            c.conv_kernel >= 0,
            c.hc_count >= 0,
            c.hidden >= 0,
    ;
    lemma_record_vector(r, w.hc_mlp_norm, "layers."@ + decimal(l as nat) + ".mlp_hyper_connection.hc_norm.weight"@, c.hc_count * c.hidden);
}

/// The router and the shared expert of a layer is held by name: every field is the tensor of a file that is called as it is.
#[verifier::rlimit(60)]
pub proof fn law_a_router_of_a_file_is_by_name(m: Model, f: Filed, l: int)
    requires
        m.is_filed(f.data, f.list),
        0 <= l < m.cfg.layers,
    ensures
        ({
            let (w, c) = (m.layers@[l], m.cfg);
            &&& f.matrix(w.router, "model.layers."@ + decimal(l as nat) + ".mlp.gate.weight"@, c.experts as int, c.hidden as int)
            &&& f.matrix(w.se_gate, "model.layers."@ + decimal(l as nat) + ".mlp.shared_expert.gate_proj.weight"@, c.shared_inter as int, c.hidden as int)
            &&& f.matrix(w.se_up, "model.layers."@ + decimal(l as nat) + ".mlp.shared_expert.up_proj.weight"@, c.shared_inter as int, c.hidden as int)
            &&& f.matrix(w.se_down, "model.layers."@ + decimal(l as nat) + ".mlp.shared_expert.down_proj.weight"@, c.hidden as int, c.shared_inter as int)
            &&& f.matrix(w.se_g, "model.layers."@ + decimal(l as nat) + ".mlp.shared_expert_gate.weight"@, 1, c.hidden as int)
        }),
{
    let (w, c) = (m.layers@[l], m.cfg);
    let slots = layer_slots(c, file_layers(), l);
    assert(slots.len() == 32);
    lemma_each_in_file(f, slots);
    assert(slots[27] == slots[27]);
    assert(slots[28] == slots[28]);
    assert(slots[29] == slots[29]);
    assert(slots[30] == slots[30]);
    assert(slots[31] == slots[31]);
}

/// The router and the shared expert of a layer is held by name: every field is the tensor of a package that is called as it is.
#[verifier::rlimit(60)]
pub proof fn law_a_router_of_a_package_is_by_name(m: Model, r: Records, l: int)
    requires
        m.is_recorded(r),
        0 <= l < m.cfg.layers,
    ensures
        ({
            let (w, c) = (m.layers@[l], m.cfg);
            &&& record_matrix(r, w.router, "layers."@ + decimal(l as nat) + ".mlp.gate.weight"@, c.experts as int, c.hidden as int)
            &&& record_matrix(r, w.se_gate, "layers."@ + decimal(l as nat) + ".mlp.shared_expert.gate_proj.weight"@, c.shared_inter as int, c.hidden as int)
            &&& record_matrix(r, w.se_up, "layers."@ + decimal(l as nat) + ".mlp.shared_expert.up_proj.weight"@, c.shared_inter as int, c.hidden as int)
            &&& record_matrix(r, w.se_down, "layers."@ + decimal(l as nat) + ".mlp.shared_expert.down_proj.weight"@, c.hidden as int, c.shared_inter as int)
            &&& record_matrix(r, w.se_g, "layers."@ + decimal(l as nat) + ".mlp.shared_expert_gate.weight"@, 1, c.hidden as int)
        }),
{
    let (w, c) = (m.layers@[l], m.cfg);
    let slots = layer_slots(c, record_layers(), l);
    assert(slots.len() == 32);
    lemma_each_in_records(r, slots);
    assert(slots[27] == slots[27]);
    assert(slots[28] == slots[28]);
    assert(slots[29] == slots[29]);
    assert(slots[30] == slots[30]);
    assert(slots[31] == slots[31]);
}

/// The matrices of an expert are held by name: the rows of its first tensor are those of its gating
/// projection and, behind them, those of the one that is gated; its second tensor leads back.
pub proof fn law_experts_of_a_file_are_by_name(m: Model, f: Filed, l: int, e: int)
    requires
        m.is_filed(f.data, f.list),
        0 <= l < m.cfg.layers,
        0 <= e < m.cfg.experts,
        2 * m.cfg.moe_inter <= usize::MAX,
    ensures
        m.experts@[l]@.len() == m.cfg.experts,
        ({
            let (w, c) = (m.experts@[l]@[e], m.cfg);
            let at = "model.layers."@ + decimal(l as nat) + ".mlp.experts."@ + decimal(e as nat);
            let both = load_spec(
                f.data,
                f.list,
                at + ".gate_up_proj"@,
                seq![(2 * c.moe_inter) as u64, c.hidden as u64],
            );
            &&& both is Ok
            &&& both->Ok_0 == w.gate.f@ + w.up.f@
            &&& w.gate.f@.len() == c.moe_inter * c.hidden
            &&& w.up.f@.len() == c.moe_inter * c.hidden
            &&& w.gate.o == c.moe_inter && w.gate.i == c.hidden && w.gate.bytes is None
            &&& w.up.o == c.moe_inter && w.up.i == c.hidden && w.up.bytes is None
            &&& f.matrix(w.down, at + ".down_proj"@, c.hidden as int, c.moe_inter as int)
        }),
{
    let (w, c) = (m.experts@[l]@[e], m.cfg);
    let slots = expert_slots(c, l, e);
    assert(experts_are_filed(m.experts@[l]@, f.data, f.list, c, l));
    assert(expert_is_filed(w, f.data, f.list, c, l, e));
    lemma_each_in_file(f, slots);
    assert(slots[0] == slots[0] && slots[1] == slots[1]);
    let rows = load_spec(
        f.data,
        f.list,
        "model.layers."@ + decimal(l as nat) + ".mlp.experts."@ + decimal(e as nat)
            + ".gate_up_proj"@,
        seq![(2 * c.moe_inter) as u64, c.hidden as u64],
    )->Ok_0;
    let half = c.moe_inter * c.hidden;
    lemma_file_len(f.data, f.list, slots[0]);
    assert((2 * c.moe_inter) * c.hidden == 2 * half && half >= 0) by (nonlinear_arith)
        requires
            half == c.moe_inter * c.hidden,
            c.moe_inter >= 0,
            c.hidden >= 0,
    ;
    assert(rows =~= rows.take(half) + rows.skip(half));
}

/// The tensors of a file that belong to no layer are held by name.
#[verifier::rlimit(60)]
pub proof fn law_the_rest_of_a_file_is_by_name(m: Model, f: Filed)
    requires
        m.is_filed(f.data, f.list),
    ensures
        ({
            let c = m.cfg;
            let lane = c.hc_count * c.hidden;
            let at = "model.hyper_connection_mixer"@;
            &&& f.matrix(m.embed, "model.embed_tokens.weight"@, c.vocab as int, c.hidden as int)
            &&& f.matrix(m.lm_head, "lm_head.weight"@, c.vocab as int, c.hidden as int)
            &&& f.vector(m.final_norm, "model.norm.weight"@, c.hidden as int) || (c.hc_count > 0
                && m.final_norm@.len() == 0 && load_spec(
                f.data,
                f.list,
                "model.norm.weight"@,
                seq![c.hidden as u64],
            ) is Err)
            &&& f.vector(m.hc_global.norm, at + ".hc_norm.weight"@, lane)
            &&& f.matrix(
                m.hc_global.mix_down,
                at + ".input_mix_weight_down.weight"@,
                c.hc_lowrank as int,
                lane,
            )
            &&& f.matrix(
                m.hc_global.mix_up,
                at + ".input_mix_weight_up.weight"@,
                lane,
                c.hc_lowrank as int,
            )
            &&& c.ple_layer >= 0 ==> {
                &&& f.matrix(
                    m.ple_key_proj,
                    "model.ple"@ + ".key_proj.weight"@,
                    lane,
                    c.ple_embed_dim as int,
                )
                &&& f.matrix(
                    m.ple_value_proj,
                    "model.ple"@ + ".value_proj.weight"@,
                    c.hidden as int,
                    c.ple_embed_dim as int,
                )
                &&& f.vector(m.ple_norm_key, "model.ple"@ + ".norm_key.weight"@, lane)
                &&& f.vector(m.ple_norm_query, "model.ple"@ + ".norm_query.weight"@, lane)
                &&& f.vector(m.ple_norm_conv, "model.ple"@ + ".norm_conv.weight"@, lane)
                &&& f.vector(
                    m.ple_conv1d,
                    "model.ple"@ + ".conv1d.weight"@,
                    lane * c.ple_conv_kernel,
                )
            }
            &&& c.ple_layer >= 0 && c.ngram_heads > 0 ==> f.matrix(
                m.ple_ngram,
                "model.ple.ple_embedding.ngram_embedding.weight"@,
                m.ple_ngram.o as int,
                c.ple_embed_dim as int / c.ngram_heads as int,
            )
        }),
{
    let c = m.cfg;
    let slots = file_top(c);
    lemma_each_in_file(f, slots);
    let held = in_file(f.data, f.list, slots)->Ok_0;
    let inner = slots.subrange(1, 7);
    assert(inner =~= memory_slots(c, "model.ple"@));
    assert forall|k: int| 0 <= k < 6 implies #[trigger] inner[k] == slots[k + 1] && held.subrange(
        1,
        7,
    )[k] == held[k + 1] by {}
    assert(inner[0] == slots[1] && inner[1] == slots[2] && inner[2] == slots[3]);
    assert(inner[3] == slots[4] && inner[4] == slots[5] && inner[5] == slots[6]);
    assert(slots[0] == slots[0] && slots[7] == slots[7] && slots[8] == slots[8]);
    let none = Seq::<char>::empty();
    assert(none + "model.embed_tokens.weight"@ =~= "model.embed_tokens.weight"@);
    assert(none + "lm_head.weight"@ =~= "lm_head.weight"@);
    assert(none + "model.ple.ple_embedding.ngram_embedding.weight"@
        =~= "model.ple.ple_embedding.ngram_embedding.weight"@);
    let mixer = mixer_slots(c, "model.hyper_connection_mixer"@);
    lemma_each_in_file(f, mixer);
    assert(mixer[0] == mixer[0] && mixer[1] == mixer[1] && mixer[2] == mixer[2]);
}

/// The tensors of a package that belong to no layer, or to the memory, are held by name.
#[verifier::rlimit(60)]
pub proof fn law_the_rest_of_a_package_is_by_name(m: Model, r: Records)
    requires
        m.is_recorded(r),
    ensures
        ({
            let c = m.cfg;
            let lane = c.hc_count * c.hidden;
            let at = "hyper_connection_mixer"@;
            let ple = "layers."@ + decimal(c.ple_layer as nat) + ".ple"@;
            &&& record_matrix(r, m.embed, "embed.weight"@, c.vocab as int, c.hidden as int)
            &&& record_matrix(r, m.lm_head, "head.weight"@, c.vocab as int, c.hidden as int)
            &&& record_vector(r, m.final_norm, "norm.weight"@, c.hidden as int) || (c.hc_count > 0
                && m.final_norm@.len() == 0 && r.dense("norm.weight"@) is None)
            &&& record_vector(r, m.hc_global.norm, at + ".hc_norm.weight"@, lane)
            &&& record_matrix(
                r,
                m.hc_global.mix_down,
                at + ".input_mix_weight_down.weight"@,
                c.hc_lowrank as int,
                lane,
            )
            &&& record_matrix(
                r,
                m.hc_global.mix_up,
                at + ".input_mix_weight_up.weight"@,
                lane,
                c.hc_lowrank as int,
            )
            &&& c.ple_layer >= 0 ==> {
                &&& record_matrix(
                    r,
                    m.ple_key_proj,
                    ple + ".key_proj.weight"@,
                    lane,
                    c.ple_embed_dim as int,
                )
                &&& record_matrix(
                    r,
                    m.ple_value_proj,
                    ple + ".value_proj.weight"@,
                    c.hidden as int,
                    c.ple_embed_dim as int,
                )
                &&& record_vector(r, m.ple_norm_key, ple + ".norm_key.weight"@, lane)
                &&& record_vector(r, m.ple_norm_query, ple + ".norm_query.weight"@, lane)
                &&& record_vector(r, m.ple_norm_conv, ple + ".norm_conv.weight"@, lane)
                &&& record_vector(
                    r,
                    m.ple_conv1d,
                    ple + ".conv1d.weight"@,
                    lane * c.ple_conv_kernel,
                )
            }
        }),
{
    let c = m.cfg;
    let lane = c.hc_count * c.hidden;
    let ple = "layers."@ + decimal(c.ple_layer as nat) + ".ple"@;
    assert(lane >= 0 && lane * c.ple_conv_kernel >= 0) by (nonlinear_arith)
        requires
            lane == c.hc_count * c.hidden,
            c.hc_count >= 0,
            c.hidden >= 0,
            c.ple_conv_kernel >= 0,
    ;
    let memory = memory_slots(c, memory_name(c));
    lemma_each_in_records(r, memory);
    assert(memory[0] == memory[0] && memory[1] == memory[1] && memory[2] == memory[2]);
    assert(memory[3] == memory[3] && memory[4] == memory[4] && memory[5] == memory[5]);
    if c.ple_layer >= 0 {
        lemma_record_vector(r, m.ple_norm_key, ple + ".norm_key.weight"@, lane);
        lemma_record_vector(r, m.ple_norm_query, ple + ".norm_query.weight"@, lane);
        lemma_record_vector(r, m.ple_norm_conv, ple + ".norm_conv.weight"@, lane);
        lemma_record_vector(r, m.ple_conv1d, ple + ".conv1d.weight"@, lane * c.ple_conv_kernel);
    }
    let slots = record_top(c);
    lemma_each_in_records(r, slots);
    let held = in_records(r, slots)->Ok_0;
    let behind = slots.skip(2);
    assert(behind[0] == slots[2] && behind[1] == slots[3] && behind[2] == slots[4]);
    assert(held.skip(2)[0] == held[2] && held.skip(2)[1] == held[3] && held.skip(2)[2] == held[4]);
    assert(slots[0] == slots[0] && slots[1] == slots[1]);
    let none = Seq::<char>::empty();
    assert(none + "embed.weight"@ =~= "embed.weight"@);
    assert(none + "head.weight"@ =~= "head.weight"@);
    lemma_record_vector(
        r,
        m.hc_global.norm,
        "hyper_connection_mixer"@ + ".hc_norm.weight"@,
        lane,
    );
    if !(c.hc_count > 0 && r.dense("norm.weight"@) is None) {
        lemma_record_vector(r, m.final_norm, "norm.weight"@, c.hidden as int);
    }
}

} // verus!
