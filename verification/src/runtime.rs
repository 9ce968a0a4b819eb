//! What a model keeps while it runs, and the parts that a token passes through.

use vstd::prelude::*;

use crate::config::Cfg;
use crate::gdn_ane::{asked_for, requested};
use crate::mxfp4::lemma_cell;
use crate::settings::{switch_on, Settings};
use crate::text::{chars_of, lower, lower_spec, spells};
use crate::weights::{Wt, WtBytes};

verus! {

/// How many singles a layer keeps from token to token.
#[derive(Clone, Copy, Debug, PartialEq, Eq, Structural)]
pub struct LayerState {
    /// What the convolution remembers.
    pub conv: usize,
    /// The state of the heads.
    pub heads: usize,
    /// Keys, and as many for values.
    pub cache: usize,
    /// Index keys.
    pub index: usize,
}

/// The width of what the convolution of linear attention runs over.
pub open spec fn conv_channels(c: Cfg) -> int {
    c.lin_k_dim * c.lin_k_heads * 2 + c.lin_v_dim * c.lin_v_heads
}

/// What a convolution remembers of a channel.
pub open spec fn remembered(kernel: int) -> int {
    if kernel == 0 {
        0
    } else {
        kernel - 1
    }
}

/// What a layer keeps.
pub open spec fn kept(c: Cfg, gdn: bool, qsa: bool) -> (int, int, int, int) {
    (
        if gdn {
            conv_channels(c) * remembered(c.conv_kernel as int)
        } else {
            0
        },
        if gdn {
            c.lin_v_heads * c.lin_k_dim * c.lin_v_dim
        } else {
            0
        },
        if gdn {
            0
        } else {
            c.kv_heads * c.max_t * c.head_dim
        },
        if qsa {
            c.max_t * c.idx_kv_heads * c.idx_head_dim
        } else {
            0
        },
    )
}

/// Whether everything a layer could keep can be counted.
pub open spec fn keeps_fit(c: Cfg) -> bool {
    &&& c.lin_k_dim * c.lin_k_heads * 2 <= usize::MAX
    &&& c.lin_v_dim * c.lin_v_heads <= usize::MAX
    &&& conv_channels(c) <= usize::MAX
    &&& conv_channels(c) * remembered(c.conv_kernel as int) <= usize::MAX
    &&& c.lin_v_heads * c.lin_k_dim <= usize::MAX
    &&& c.lin_v_heads * c.lin_k_dim * c.lin_v_dim <= usize::MAX
    &&& c.kv_heads * c.max_t <= usize::MAX
    &&& c.kv_heads * c.max_t * c.head_dim <= usize::MAX
    &&& c.max_t * c.idx_kv_heads <= usize::MAX
    &&& c.max_t * c.idx_kv_heads * c.idx_head_dim <= usize::MAX
}

/// Tests whether everything a layer could keep can be counted.
pub fn check_keeps(c: &Cfg) -> (r: bool)
    ensures
        r == keeps_fit(*c),
{
    let history: usize = if c.conv_kernel > 0 {
        c.conv_kernel - 1
    } else {
        0
    };
    let channels: usize = match (c.lin_k_dim.checked_mul(c.lin_k_heads), c.lin_v_dim.checked_mul(
        c.lin_v_heads,
    )) {
        (Some(keys), Some(values)) => match keys.checked_mul(2) {
            Some(both) => match both.checked_add(values) {
                Some(n) => n,
                None => {
                    return false;
                },
            },
            None => {
                return false;
            },
        },
        _ => {
            return false;
        },
    };
    channels.checked_mul(history).is_some() && counts(c.lin_v_heads, c.lin_k_dim, c.lin_v_dim)
        && counts(c.kv_heads, c.max_t, c.head_dim) && counts(c.max_t, c.idx_kv_heads, c.idx_head_dim)
}

/// Whether a product of two and of three can be counted.
fn counts(a: usize, b: usize, c: usize) -> (r: bool)
    ensures
        r == (a * b <= usize::MAX && a * b * c <= usize::MAX),
{
    match a.checked_mul(b) {
        Some(n) => n.checked_mul(c).is_some(),
        None => false,
    }
}

/// How much a layer keeps: linear attention a history and a state, any other keys and
/// values of every position, and sparse attention index keys besides.
pub fn layer_state(c: &Cfg, gdn: bool, qsa: bool) -> (r: LayerState)
    requires
        keeps_fit(*c),
    ensures
        (r.conv as int, r.heads as int, r.cache as int, r.index as int) == kept(*c, gdn, qsa),
{
    let conv: usize = if gdn && c.conv_kernel > 0 {
        assert(c.lin_k_dim * c.lin_k_heads <= c.lin_k_dim * c.lin_k_heads * 2) by (nonlinear_arith)
            requires
                c.lin_k_dim >= 0,
                c.lin_k_heads >= 0,
        ;
        (c.lin_k_dim * c.lin_k_heads * 2 + c.lin_v_dim * c.lin_v_heads) * (c.conv_kernel - 1)
    } else {
        0
    };
    proof {
        let (channels, history) = (conv_channels(*c), remembered(c.conv_kernel as int));
        assert(history == 0 ==> channels * history == 0) by (nonlinear_arith);
    }
    let heads: usize = if gdn {
        c.lin_v_heads * c.lin_k_dim * c.lin_v_dim
    } else {
        0
    };
    let cache: usize = if gdn {
        0
    } else {
        c.kv_heads * c.max_t * c.head_dim
    };
    let index: usize = if qsa {
        c.max_t * c.idx_kv_heads * c.idx_head_dim
    } else {
        0
    };
    LayerState { conv, heads, cache, index }
}

/// What all layers keep.
pub fn layer_states(c: &Cfg) -> (r: Vec<LayerState>)
    requires
        keeps_fit(*c),
        c.gdn_layers@.len() == c.qsa_layers@.len(),
    ensures
        r@.len() == c.gdn_layers@.len(),
        forall|l: int|
            0 <= l < r@.len() ==> (
                (#[trigger] r@[l]).conv as int,
                r@[l].heads as int,
                r@[l].cache as int,
                r@[l].index as int,
            ) == kept(*c, c.gdn_layers@[l], c.qsa_layers@[l]),
{
    let mut r: Vec<LayerState> = Vec::new();
    let mut l: usize = 0;
    while l < c.gdn_layers.len()
        invariant
            keeps_fit(*c),
            c.gdn_layers@.len() == c.qsa_layers@.len(),
            l <= c.gdn_layers@.len(),
            r@.len() == l,
            forall|k: int|
                0 <= k < l ==> (
                    (#[trigger] r@[k]).conv as int,
                    r@[k].heads as int,
                    r@[k].cache as int,
                    r@[k].index as int,
                ) == kept(*c, c.gdn_layers@[k], c.qsa_layers@[k]),
        decreases c.gdn_layers@.len() - l,
    {
        r.push(layer_state(c, c.gdn_layers[l], c.qsa_layers[l]));
        l = l + 1;
    }
    r
}

/// A layer keeps no more for a longer text if it is one of linear attention, and
/// nothing but keys, values and index keys if it is not.
pub proof fn law_linear_attention_keeps_a_fixed_state(c: Cfg, longer: usize, qsa: bool)
    ensures
        kept(Cfg { max_t: longer, ..c }, true, false) == kept(c, true, false),
        kept(c, false, qsa).0 == 0 && kept(c, false, qsa).1 == 0,
{
}

/// How many samples of a channel the memory's convolution remembers.
pub open spec fn memory_history(kernel: int, ngram: int) -> int {
    let n = (kernel - 1) * ngram + 1;
    if n > 1 {
        n
    } else {
        1
    }
}

/// Whether what the memory's convolution remembers can be counted.
pub open spec fn memory_counts(width: int, kernel: int, ngram: int) -> bool {
    &&& kernel >= 1
    &&& (kernel - 1) * ngram + 1 <= usize::MAX
    &&& width * memory_history(kernel, ngram) <= usize::MAX
}

/// Tests whether what the memory's convolution remembers can be counted.
pub fn check_memory(width: usize, kernel: usize, ngram: usize) -> (r: bool)
    ensures
        r == memory_counts(width as int, kernel as int, ngram as int),
{
    if kernel == 0 {
        return false;
    }
    assert((kernel - 1) * ngram >= 0) by (nonlinear_arith)
        requires
            kernel >= 1,
            ngram >= 0,
    ;
    match (kernel - 1).checked_mul(ngram) {
        Some(steps) => match steps.checked_add(1) {
            Some(n) => width.checked_mul(n).is_some(),
            None => false,
        },
        None => false,
    }
}

/// How many singles the memory's convolution remembers in all.
pub fn memory_conv_len(width: usize, kernel: usize, ngram: usize) -> (r: usize)
    requires
        memory_counts(width as int, kernel as int, ngram as int),
    ensures
        r == width * memory_history(kernel as int, ngram as int),
{
    assert((kernel - 1) * ngram >= 0) by (nonlinear_arith)
        requires
            kernel >= 1,
            ngram >= 0,
    ;
    let n: usize = (kernel - 1) * ngram + 1;
    width * n
}

/// The ring of the last tokens before the first: the end of a text, over and over.
pub fn fresh_ring(ngram: usize, eos: i64) -> (r: Vec<i64>)
    ensures
        r@.len() == (if ngram == 0 {
            1int
        } else {
            ngram as int
        }),
        forall|i: int| 0 <= i < r@.len() ==> #[trigger] r@[i] == eos,
{
    let n: usize = if ngram == 0 {
        1
    } else {
        ngram
    };
    let mut r: Vec<i64> = Vec::new();
    while r.len() < n
        invariant
            r@.len() <= n,
            forall|i: int| 0 <= i < r@.len() ==> #[trigger] r@[i] == eos,
        decreases n - r@.len(),
    {
        r.push(eos);
    }
    r
}

/// Numbers that tell models apart on a device.
#[derive(Debug)]
pub struct ModelIds {
    pub next: u64,
}

impl ModelIds {
    /// Before the first model.
    pub fn new() -> (r: ModelIds)
        ensures
            r.next == 1,
    {
        ModelIds { next: 1 }
    }

    /// A number that no model has had yet. There is one left as long as the next is not
    /// zero.
    pub fn next_metal_model_id(&mut self) -> (r: u64)
        requires
            old(self).next != 0,
        ensures
            r == old(self).next,
            r != 0,
            final(self).next == (if old(self).next == u64::MAX {
                0
            } else {
                old(self).next + 1
            }),
    {
        let id: u64 = self.next;
        self.next = self.next.wrapping_add(1);
        id
    }
}

/// The length of a buffer in whole pages.
pub open spec fn in_pages(len: int) -> int {
    (len + 16383) / 16384 * 16384
}

/// The length of a buffer that begins and ends with a page. There is none for nothing.
pub fn aligned_len(len: usize) -> (r: Option<usize>)
    requires
        len + 16383 <= usize::MAX,
    ensures
        match r {
            Some(n) => len > 0 && n == in_pages(len as int),
            None => len == 0,
        },
{
    if len == 0 {
        return None;
    }
    Some((len + 16383) / 16384 * 16384)
}

/// A buffer in pages holds what it is for and wastes less than a page.
pub proof fn law_pages_hold_the_buffer(len: int)
    requires
        len >= 0,
    ensures
        len <= in_pages(len) < len + 16384,
        in_pages(len) % 16384 == 0,
{
}

/// Whether the head is held as bfloat16 of exactly its size.
pub open spec fn head_is_whole(head: Wt, vocab: int, hidden: int) -> bool {
    head.bytes matches Some(WtBytes::Bf16 { weights, .. }) && weights@.len() == vocab * hidden * 2
        && vocab * hidden * 2 <= usize::MAX && vocab * hidden > 0
}

/// Moves the bytes of the head into a buffer of their own, unless that is switched
/// off or they are there already. Says whether they are there.
pub fn rehome_lm_head_bf16(
    settings: &Settings,
    head: &mut Wt,
    aligned: &mut Option<Vec<u8>>,
    vocab: usize,
    hidden: usize,
) -> (r: bool)
    ensures
        r == (*final(aligned) is Some),
        ({
            let moves = switch_on(settings.value("QWEN_LM_HEAD_ALIGNED"@), true) && *old(aligned) is None
                && head_is_whole(*old(head), vocab as int, hidden as int);
            &&& moves ==> {
                &&& *final(head) == (Wt { bytes: None, ..*old(head) })
                &&& *final(aligned) matches Some(v) && old(head).bytes matches Some(
                    WtBytes::Bf16 { weights, .. },
                ) && v@ == weights@
            }
            &&& !moves ==> *final(head) == *old(head) && *final(aligned) == *old(aligned)
        }),
{
    let there: bool = match aligned {
        Some(_) => true,
        None => false,
    };
    if !settings.on("QWEN_LM_HEAD_ALIGNED", true) || there {
        return there;
    }
    let need: usize = match vocab.checked_mul(hidden) {
        Some(n) => match n.checked_mul(2) {
            Some(n) => n,
            None => {
                return false;
            },
        },
        None => {
            proof {
                assert(vocab * hidden * 2 > usize::MAX) by (nonlinear_arith)
                    requires
                        vocab * hidden > usize::MAX,
                ;
            }
            return false;
        },
    };
    let copy: Vec<u8> = match head.bf16_bytes() {
        Some(src) => {
            if src.len() != need || need == 0 {
                return false;
            }
            crate::bytes::copy_range(src.as_slice(), 0, need)
        },
        None => {
            return false;
        },
    };
    proof {
        assert(old(head).bytes matches Some(WtBytes::Bf16 { weights, .. }) && weights@.subrange(
            0,
            need as int,
        ) =~= weights@);
    }
    head.bytes = None;
    *aligned = Some(copy);
    true
}

/// What computes the logits.
#[derive(Clone, Copy, Debug, PartialEq, Eq, Structural)]
pub enum HeadBackend {
    /// The matrix as it is held.
    Plain,
    /// The device, from the moved bytes.
    Metal,
    /// The host's neural library, from the moved bytes.
    Bnns,
    /// The host, from the moved bytes.
    Host,
}

/// What computes the logits.
pub open spec fn backend_of(s: Settings, moved: bool) -> HeadBackend {
    let name = lower_spec(
        match s.value("QWEN_LM_HEAD_BACKEND"@) {
            Some(v) => v,
            None => "cpu"@,
        },
    );
    if !moved {
        HeadBackend::Plain
    } else if name == "metal"@ {
        HeadBackend::Metal
    } else if name == "bnns"@ {
        HeadBackend::Bnns
    } else {
        HeadBackend::Host
    }
}

/// What computes the logits first.
pub fn head_backend(settings: &Settings, moved: bool) -> (r: HeadBackend)
    ensures
        r == backend_of(*settings, moved),
{
    if !moved {
        return HeadBackend::Plain;
    }
    let name: Vec<char> = lower(&chars_of(settings.text("QWEN_LM_HEAD_BACKEND", "cpu")));
    if spells(&name, "metal") {
        HeadBackend::Metal
    } else if spells(&name, "bnns") {
        HeadBackend::Bnns
    } else {
        HeadBackend::Host
    }
}

/// What computes the logits where a backend declined: the host, which does not.
pub fn head_fallback(backend: HeadBackend, ok: bool) -> (r: Option<HeadBackend>)
    ensures
        r == (if !ok && (backend is Metal || backend is Bnns) {
            Some(HeadBackend::Host)
        } else {
            None
        }),
{
    match backend {
        HeadBackend::Metal | HeadBackend::Bnns => if ok {
            None
        } else {
            Some(HeadBackend::Host)
        },
        _ => None,
    }
}

/// The layers of linear attention that the settings name for the neural engine.
pub open spec fn to_warm(s: Settings, on_apple: bool, gdn: Seq<bool>, n: int) -> Seq<usize>
    decreases n,
{
    if n <= 0 {
        Seq::empty()
    } else {
        let rest = to_warm(s, on_apple, gdn, n - 1);
        if gdn[n - 1] && asked_for(s, on_apple, (n - 1) as usize) {
            rest.push((n - 1) as usize)
        } else {
            rest
        }
    }
}

/// The layers to warm up before the first token, in order.
pub fn warm_selected_gdn_ane(settings: &Settings, on_apple: bool, gdn: &Vec<bool>) -> (r: Vec<usize>)
    ensures
        r@ == to_warm(*settings, on_apple, gdn@, gdn@.len() as int),
{
    let mut r: Vec<usize> = Vec::new();
    let mut l: usize = 0;
    while l < gdn.len()
        invariant
            l <= gdn@.len(),
            r@ == to_warm(*settings, on_apple, gdn@, l as int),
        decreases gdn@.len() - l,
    {
        if gdn[l] && requested(settings, on_apple, l) {
            r.push(l);
        }
        l = l + 1;
    }
    r
}

/// A part of a layer.
#[derive(Clone, Copy, Debug, PartialEq, Eq, Structural)]
pub enum LayerPart {
    /// Normalize the stream for attention.
    Norm,
    /// Add what the memory has of the last tokens.
    Memory,
    /// Mix the streams for attention.
    Mix,
    /// Linear attention.
    Linear,
    /// Attention to every position.
    Full,
    /// Attention to the positions that the index picks.
    Sparse,
    /// Add what attention gave to the stream.
    AddAttention,
    /// Add it to every stream, weighed.
    InjectAttention,
    /// Normalize the stream for the experts.
    ExpertNorm,
    /// Mix the streams for the experts.
    ExpertMix,
    /// The experts. Where some are missing the token stops here.
    Experts,
    /// Add what the experts gave to the stream.
    AddExperts,
    /// Add it to every stream, weighed.
    InjectExperts,
}

/// The parts of a layer, in order. A model of one stream normalizes and adds; a model
/// of several mixes and injects, and may have a memory in front of one layer.
pub open spec fn parts_of(streams: int, gdn: bool, qsa: bool, memory: bool) -> Seq<LayerPart> {
    let attention = if gdn {
        LayerPart::Linear
    } else if qsa && streams > 0 {
        LayerPart::Sparse
    } else {
        LayerPart::Full
    };
    if streams == 0 {
        seq![
            LayerPart::Norm,
            attention,
            LayerPart::AddAttention,
            LayerPart::ExpertNorm,
            LayerPart::Experts,
            LayerPart::AddExperts,
        ]
    } else {
        (if memory {
            seq![LayerPart::Memory]
        } else {
            Seq::empty()
        }) + seq![
            LayerPart::Mix,
            attention,
            LayerPart::InjectAttention,
            LayerPart::ExpertMix,
            LayerPart::Experts,
            LayerPart::InjectExperts,
        ]
    }
}

/// The parts of a layer, in order.
pub fn layer_parts(streams: usize, gdn: bool, qsa: bool, memory: bool) -> (r: Vec<LayerPart>)
    ensures
        r@ == parts_of(streams as int, gdn, qsa, memory),
{
    let attention: LayerPart = if gdn {
        LayerPart::Linear
    } else if qsa && streams > 0 {
        LayerPart::Sparse
    } else {
        LayerPart::Full
    };
    let mut r: Vec<LayerPart> = Vec::new();
    if streams == 0 {
        r.push(LayerPart::Norm);
        r.push(attention);
        r.push(LayerPart::AddAttention);
        r.push(LayerPart::ExpertNorm);
        r.push(LayerPart::Experts);
        r.push(LayerPart::AddExperts);
    } else {
        if memory {
            r.push(LayerPart::Memory);
        }
        r.push(LayerPart::Mix);
        r.push(attention);
        r.push(LayerPart::InjectAttention);
        r.push(LayerPart::ExpertMix);
        r.push(LayerPart::Experts);
        r.push(LayerPart::InjectExperts);
    }
    assert(r@ =~= parts_of(streams as int, gdn, qsa, memory));
    r
}

/// Every layer attends once and then asks its experts once, and a token that stops for
/// experts has one part of the layer left.
pub proof fn law_attention_comes_before_the_experts(streams: int, gdn: bool, qsa: bool, memory: bool)
    requires
        streams >= 0,
    ensures
        ({
            let p = parts_of(streams, gdn, qsa, memory);
            let n = p.len();
            &&& p[n - 2] is Experts
            &&& p[n - 5] is Linear || p[n - 5] is Full || p[n - 5] is Sparse
            &&& forall|i: int| 0 <= i < n && #[trigger] p[i] is Experts ==> i == n - 2
            &&& p[n - 5] is Linear == gdn
        }),
{
}

/// What is done with the streams once the last layer is through.
#[derive(Clone, Copy, Debug, PartialEq, Eq, Structural)]
pub enum TailPart {
    /// Mix the streams into one.
    Mix,
    /// Normalize with weights that are stored as they are used.
    ShiftedNorm,
    /// Normalize with weights that are stored less one.
    Norm,
    /// Compute the logits.
    Head,
}

/// What is done once the last layer is through: a model of one stream normalizes it; a
/// model of several mixes them, and normalizes where it has weights for that.
pub open spec fn tail_of(streams: int, has_norm: bool) -> Seq<TailPart> {
    if streams == 0 {
        seq![TailPart::ShiftedNorm, TailPart::Head]
    } else if has_norm {
        seq![TailPart::Mix, TailPart::Norm, TailPart::Head]
    } else {
        seq![TailPart::Mix, TailPart::Head]
    }
}

/// What is done once the last layer is through.
pub fn tail_parts(streams: usize, has_norm: bool) -> (r: Vec<TailPart>)
    ensures
        r@ == tail_of(streams as int, has_norm),
{
    let mut r: Vec<TailPart> = Vec::new();
    if streams == 0 {
        r.push(TailPart::ShiftedNorm);
    } else {
        r.push(TailPart::Mix);
        if has_norm {
            r.push(TailPart::Norm);
        }
    }
    r.push(TailPart::Head);
    assert(r@ =~= tail_of(streams as int, has_norm));
    r
}

/// The streams of a token before the first layer: its embedding, once for every stream.
pub open spec fn streams_of<T>(embedding: Seq<T>, streams: int) -> Seq<T> {
    let n = if streams == 0 {
        1
    } else {
        streams
    };
    Seq::new((n * embedding.len()) as nat, |i: int| embedding[i % embedding.len() as int])
}

/// The streams of a token before the first layer.
pub fn init_token_stream<T: Copy>(embedding: &Vec<T>, streams: usize) -> (r: Vec<T>)
    ensures
        r@ == streams_of(embedding@, streams as int),
{
    let n: usize = if streams == 0 {
        1
    } else {
        streams
    };
    let d: usize = embedding.len();
    let mut r: Vec<T> = Vec::new();
    let mut g: usize = 0;
    while g < n
        invariant
            g <= n,
            d == embedding@.len(),
            r@.len() == g * d,
            forall|i: int| 0 <= i < g * d ==> #[trigger] r@[i] == embedding@[i % d as int],
        decreases n - g,
    {
        let mut j: usize = 0;
        while j < d
            invariant
                g < n,
                j <= d,
                d == embedding@.len(),
                r@.len() == g * d + j,
                forall|i: int| 0 <= i < g * d + j ==> #[trigger] r@[i] == embedding@[i % d as int],
            decreases d - j,
        {
            r.push(embedding[j]);
            proof {
                lemma_cell((g + 1) as nat, d as nat, g as int, j as int);
            }
            j = j + 1;
        }
        proof {
            assert((g + 1) * d == g * d + d) by (nonlinear_arith);
        }
        g = g + 1;
    }
    assert(r@ =~= streams_of(embedding@, streams as int));
    r
}

/// What is kept is as much as is asked for where it is used: linear attention keeps for every channel
/// of its convolution what that remembers, and for every value head a matrix of keys by values; any
/// other attention keeps keys for every position, and one position more takes the keys of one token.
pub proof fn law_as_much_is_kept_as_is_used(c: Cfg, s: crate::gdn::GdnShape, qsa: bool, more: usize)
    requires
        s.k_dim == c.lin_k_dim,
        s.k_heads == c.lin_k_heads,
        s.v_dim == c.lin_v_dim,
        s.v_heads == c.lin_v_heads,
        s.kernel == c.conv_kernel,
        more == c.max_t + 1,
    ensures
        kept(c, true, qsa).0 == s.channels() * s.history(),
        kept(c, true, qsa).1 == c.lin_v_heads * (c.lin_k_dim * c.lin_v_dim),
        kept(c, true, qsa).2 == 0,
        kept(c, false, qsa).2 == c.kv_heads * (c.max_t * c.head_dim),
        kept(Cfg { max_t: more, ..c }, false, qsa).2 == kept(c, false, qsa).2 + c.kv_heads
            * c.head_dim,
        kept(Cfg { max_t: more, ..c }, false, true).3 == kept(c, false, true).3 + c.idx_kv_heads
            * c.idx_head_dim,
        kept(c, false, false).3 == 0,
{
    let (k, v) = (c.lin_k_dim * c.lin_k_heads, c.lin_v_dim * c.lin_v_heads);
    assert(k * 2 + v == 2 * k + v);
    assert(c.lin_v_heads * c.lin_k_dim * c.lin_v_dim == c.lin_v_heads * (c.lin_k_dim * c.lin_v_dim))
        by (nonlinear_arith);
    assert(c.kv_heads * c.max_t * c.head_dim == c.kv_heads * (c.max_t * c.head_dim))
        by (nonlinear_arith);
    assert(c.kv_heads * more * c.head_dim == c.kv_heads * c.max_t * c.head_dim + c.kv_heads
        * c.head_dim) by (nonlinear_arith)
        requires
            more == c.max_t + 1,
    ;
    assert(more * c.idx_kv_heads * c.idx_head_dim == c.max_t * c.idx_kv_heads * c.idx_head_dim
        + c.idx_kv_heads * c.idx_head_dim) by (nonlinear_arith)
        requires
            more == c.max_t + 1,
    ;
}

/// The memory's convolution remembers every sample that one of its taps looks back at, and no more.
pub proof fn law_the_memory_reaches_its_last_tap(kernel: int, ngram: int)
    requires
        kernel >= 1,
        ngram >= 1,
    ensures
        memory_history(kernel, ngram) == (kernel - 1) * ngram + 1,
        memory_history(1, ngram) == 1,
        memory_history(kernel + 1, ngram) == memory_history(kernel, ngram) + ngram,
{
    assert((kernel - 1) * ngram >= 0) by (nonlinear_arith)
        requires
            kernel >= 1,
            ngram >= 1,
    ;
    assert((kernel + 1 - 1) * ngram == (kernel - 1) * ngram + ngram) by (nonlinear_arith);
    assert((1 - 1) * ngram == 0) by (nonlinear_arith);
}

/// What a layer does around attention and around the experts: in a model of one stream each is
/// normalized for and added; in a model of several the streams are mixed for it and it is injected.
/// The memory comes first, where it comes at all, and sparse attention needs several streams.
pub proof fn law_what_surrounds_attention_and_experts(streams: int, gdn: bool, qsa: bool, memory: bool)
    requires
        streams >= 0,
    ensures
        ({
            let p = parts_of(streams, gdn, qsa, memory);
            let n = p.len();
            &&& n == (if streams > 0 && memory {
                7int
            } else {
                6int
            })
            &&& streams > 0 && memory ==> p[0] is Memory
            &&& p[n - 6] is Norm <==> streams == 0
            &&& p[n - 6] is Mix <==> streams > 0
            &&& p[n - 5] is Sparse <==> qsa && !gdn && streams > 0
            &&& p[n - 5] is Full <==> !gdn && !(qsa && streams > 0)
            &&& p[n - 4] is AddAttention <==> streams == 0
            &&& p[n - 4] is InjectAttention <==> streams > 0
            &&& p[n - 3] is ExpertNorm <==> streams == 0
            &&& p[n - 3] is ExpertMix <==> streams > 0
            &&& p[n - 1] is AddExperts <==> streams == 0
            &&& p[n - 1] is InjectExperts <==> streams > 0
        }),
{
}

/// The scores come last and once; before them several streams are mixed into one, and what is scored
/// is normalized as far as the model has weights for it.
pub proof fn law_the_head_comes_last(streams: int, has_norm: bool)
    requires
        streams >= 0,
    ensures
        ({
            let t = tail_of(streams, has_norm);
            &&& t.len() >= 2
            &&& t.last() is Head
            &&& forall|i: int| 0 <= i < t.len() - 1 ==> !(#[trigger] t[i] is Head)
            &&& t[0] is Mix <==> streams > 0
            &&& t[0] is ShiftedNorm <==> streams == 0
            &&& t.len() == 3 <==> streams > 0 && has_norm
            &&& t.len() == 3 ==> t[1] is Norm
        }),
{
}

/// Every stream begins as the embedding of the token.
pub proof fn law_every_stream_begins_as_the_embedding<T>(embedding: Seq<T>, streams: int, g: int)
    requires
        streams >= 0,
        0 <= g,
        g < streams || (streams == 0 && g == 0),
    ensures
        streams_of(embedding, streams).subrange(
            g * embedding.len(),
            g * embedding.len() + embedding.len(),
        ) == embedding,
        streams_of(embedding, 0) == embedding,
        streams > 0 ==> streams_of(embedding, streams).len() == streams * embedding.len(),
{
    let d = embedding.len();
    let n = if streams == 0 {
        1
    } else {
        streams
    };
    let all = streams_of(embedding, streams);
    assert(0 <= g * d && g * d + d <= n * d) by (nonlinear_arith)
        requires
            0 <= g,
            g + 1 <= n,
            0 <= d,
    ;
    let part = all.subrange(g * d, g * d + d);
    assert forall|i: int| 0 <= i < d implies #[trigger] part[i] == embedding[i] by {
        crate::mxfp4::lemma_cell(n as nat, d, g, i);
    }
    assert(part =~= embedding);
    let one = streams_of(embedding, 0);
    assert forall|i: int| 0 <= i < d implies #[trigger] one[i] == embedding[i] by {
        vstd::arithmetic::div_mod::lemma_small_mod(i as nat, d);
    }
    assert(one =~= embedding);
}

/// Exactly the layers of linear attention that are asked for are warmed, in their order.
pub proof fn law_exactly_what_is_asked_for_is_warmed(s: Settings, on_apple: bool, gdn: Seq<bool>, n: int)
    requires
        0 <= n <= gdn.len(),
        gdn.len() <= usize::MAX,
    ensures
        forall|l: int|
            0 <= l < n ==> (#[trigger] to_warm(s, on_apple, gdn, n).contains(l as usize) <==> gdn[l]
                && asked_for(s, on_apple, l as usize)),
        forall|i: int|
            0 <= i < to_warm(s, on_apple, gdn, n).len() ==> (#[trigger] to_warm(
                s,
                on_apple,
                gdn,
                n,
            )[i] as int) < n,
        forall|i: int, j: int|
            0 <= i < j < to_warm(s, on_apple, gdn, n).len() ==> #[trigger] to_warm(
                s,
                on_apple,
                gdn,
                n,
            )[i] < #[trigger] to_warm(s, on_apple, gdn, n)[j],
    decreases n,
{
    if n > 0 {
        law_exactly_what_is_asked_for_is_warmed(s, on_apple, gdn, n - 1);
        let short = to_warm(s, on_apple, gdn, n - 1);
        let all = to_warm(s, on_apple, gdn, n);
        assert forall|l: int| 0 <= l < n implies (#[trigger] all.contains(l as usize) <==> gdn[l]
            && asked_for(s, on_apple, l as usize)) by {
            if short.contains(l as usize) {
                let i = choose|i: int| 0 <= i < short.len() && short[i] == l as usize;
                assert(all[i] == l as usize);
            }
            if all.contains(l as usize) {
                let i = choose|i: int| 0 <= i < all.len() && all[i] == l as usize;
                if i < short.len() {
                    assert(short[i] == l as usize);
                    assert(short.contains(l as usize));
                }
            }
            if l == n - 1 && gdn[l] && asked_for(s, on_apple, l as usize) {
                assert(all[all.len() - 1] == l as usize);
            }
        }
    }
}

/// Room is made in pages of sixteen kibibytes, as many as are needed and no more.
pub proof fn law_room_is_made_in_pages(len: int)
    requires
        0 <= len,
    ensures
        len <= in_pages(len) < len + 16384,
        in_pages(len) % 16384 == 0,
{
}

/// A layer of linear attention is one; of the others, one that is sparse is so where there are streams; a
/// memory comes first where there is one.
pub proof fn law_which_attention_a_layer_has(streams: int, gdn: bool, qsa: bool, memory: bool)
    requires
        0 <= streams,
    ensures
        parts_of(streams, gdn, qsa, memory).contains(LayerPart::Linear) <==> gdn,
        parts_of(streams, gdn, qsa, memory).contains(LayerPart::Sparse) <==> !gdn && qsa && streams >= 1,
        parts_of(streams, gdn, qsa, memory).contains(LayerPart::Full) <==> !gdn && !(qsa && streams >= 1),
        parts_of(streams, gdn, qsa, memory)[0] is Memory <==> memory && streams >= 1,
{
    let p = parts_of(streams, gdn, qsa, memory);
    let k: int = if streams > 0 && memory {
        2
    } else {
        1
    };
    assert(p[k] is Linear || p[k] is Sparse || p[k] is Full);
    assert forall|j: int| 0 <= j < p.len() && j != k implies !(#[trigger] p[j] is Linear || p[j] is Sparse
        || p[j] is Full) by {}
}

/// A convolution remembers one sample less than it is long.
pub proof fn law_one_sample_less_is_remembered(kernel: int)
    requires
        0 <= kernel,
    ensures
        kernel >= 1 ==> remembered(kernel) + 1 == kernel,
        remembered(0) == 0,
{
}

} // verus!
