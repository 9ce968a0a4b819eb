//! Linear attention with gated deltas: how its channels and heads are laid out,
//! what its convolution remembers, and where a step of it runs.
//!
//! A step can run on a device, on a neural engine or on the host, in part or as
//! a whole. [`GdnRun`] decides: at every stage it says what is to be done, and it
//! is told what came of it. The arithmetic is the caller's.

use vstd::prelude::*;
use vstd::string::*;

use crate::model::Layer;
use crate::mxfp4::lemma_cell;
use crate::settings::{
    layer_selected, layers_name, name_selected, scope_names, switch_enabled, switch_on, Settings,
};
use crate::weights::{
    quantize_wt_bf16_to_mxfp4, quantize_wt_bf16_to_q8_block, Packed, Rule, Wt, WtBytes,
};

verus! {

/// The sizes of a linear-attention layer.
#[derive(Clone, Copy, Debug, PartialEq, Eq, Structural)]
pub struct GdnShape {
    pub k_dim: usize,
    pub k_heads: usize,
    pub v_dim: usize,
    pub v_heads: usize,
    pub kernel: usize,
}

impl GdnShape {
    /// The width of all keys.
    pub open spec fn keys(self) -> int {
        self.k_dim * self.k_heads
    }

    /// The width of all values.
    pub open spec fn values(self) -> int {
        self.v_dim * self.v_heads
    }

    /// The width of what the convolution runs over: queries, keys and values.
    pub open spec fn channels(self) -> int {
        2 * self.keys() + self.values()
    }

    /// How many steps of a channel the convolution remembers.
    pub open spec fn history(self) -> int {
        if self.kernel > 0 {
            self.kernel - 1
        } else {
            0
        }
    }

    /// Every value head has a key head, and all key heads as many value heads.
    pub open spec fn wf(self) -> bool {
        &&& self.k_heads >= 1
        &&& self.v_heads >= self.k_heads
        &&& self.v_heads as int % self.k_heads as int == 0
        &&& self.kernel >= 1
        &&& self.channels() <= usize::MAX
        &&& self.v_heads * self.k_dim <= usize::MAX
        &&& self.channels() * self.history() <= usize::MAX
    }

    /// Tests whether every value head has a key head, all key heads have as many value heads, and
    /// all sizes can be counted.
    pub fn check(&self) -> (r: bool)
        ensures
            r == self.wf(),
    {
        if self.k_heads < 1 || self.v_heads < self.k_heads || self.v_heads % self.k_heads != 0
            || self.kernel < 1 {
            return false;
        }
        assert(self.keys() >= 0 && self.values() >= 0) by (nonlinear_arith)
            requires
                self.keys() == self.k_dim * self.k_heads,
                self.values() == self.v_dim * self.v_heads,
        ;
        let keys: usize = match self.k_dim.checked_mul(self.k_heads) {
            Some(n) => n,
            None => {
                return false;
            },
        };
        let values: usize = match self.v_dim.checked_mul(self.v_heads) {
            Some(n) => n,
            None => {
                return false;
            },
        };
        let both: usize = match keys.checked_mul(2) {
            Some(n) => n,
            None => {
                return false;
            },
        };
        match both.checked_add(values) {
            Some(channels) => self.v_heads.checked_mul(self.k_dim).is_some() && channels.checked_mul(
                self.kernel - 1,
            ).is_some(),
            None => false,
        }
    }
}

/// What the convolution of a channel sees: what it remembers, oldest first, and the
/// current sample.
pub open spec fn window<T>(current: Seq<T>, state: Seq<T>, history: int, ch: int) -> Seq<T> {
    Seq::new(
        (history + 1) as nat,
        |j: int|
            if j == history {
                current[ch]
            } else {
                state[ch * history + j]
            },
    )
}

/// What is remembered once the current samples have been taken in.
pub open spec fn shifted<T>(current: Seq<T>, state: Seq<T>, history: int) -> Seq<T> {
    Seq::new(
        state.len(),
        |i: int|
            if i % history == history - 1 {
                current[i / history]
            } else {
                state[i + 1]
            },
    )
}

/// What the convolution of a channel sees.
pub fn conv_window<T: Copy>(current: &Vec<T>, state: &Vec<T>, history: usize, ch: usize) -> (r: Vec<T>)
    requires
        ch < current@.len(),
        state@.len() == current@.len() * history,
        history < usize::MAX,
    ensures
        r@ == window(current@, state@, history as int, ch as int),
{
    let mut r: Vec<T> = Vec::new();
    let mut j: usize = 0;
    while j < history
        invariant
            ch < current@.len(),
            state@.len() == current@.len() * history,
            j <= history,
            r@.len() == j,
            forall|k: int| 0 <= k < j ==> #[trigger] r@[k] == state@[ch * history + k],
        decreases history - j,
    {
        proof {
            lemma_cell(current@.len(), history as nat, ch as int, j as int);
            assert(state.len() == state@.len());
        }
        r.push(state[ch * history + j]);
        j = j + 1;
    }
    r.push(current[ch]);
    assert(r@ =~= window(current@, state@, history as int, ch as int));
    r
}

/// Takes the current samples into what is remembered.
pub fn shift_conv<T: Copy>(current: &Vec<T>, state: &mut Vec<T>, history: usize)
    requires
        history >= 1,
        old(state)@.len() == current@.len() * history,
    ensures
        final(state)@ == shifted(current@, old(state)@, history as int),
{
    let ghost start = state@;
    let ghost want = shifted(current@, start, history as int);
    let ghost n = current@.len();
    let mut ch: usize = 0;
    assert(0 * history == 0);
    while ch < current.len()
        invariant
            history >= 1,
            n == current@.len(),
            ch <= n,
            start.len() == n * history,
            want == shifted(current@, start, history as int),
            state@.len() == start.len(),
            forall|i: int| 0 <= i < ch * history ==> #[trigger] state@[i] == want[i],
            forall|i: int| ch * history <= i < start.len() ==> #[trigger] state@[i] == start[i],
        decreases current.len() - ch,
    {
        let mut s: usize = 0;
        proof {
            lemma_cell(n, history as nat, ch as int, 0);
            assert(state.len() == state@.len());
        }
        let base: usize = ch * history;
        while s < history - 1
            invariant
                history >= 1,
                n == current@.len(),
                ch < n,
                base == ch * history,
                base + history <= start.len(),
                start.len() == n * history,
                s <= history - 1,
                want == shifted(current@, start, history as int),
                state@.len() == start.len(),
                forall|i: int| 0 <= i < base + s ==> #[trigger] state@[i] == want[i],
                forall|i: int| base + s <= i < start.len() ==> #[trigger] state@[i] == start[i],
            decreases history - s,
        {
            proof {
                lemma_cell(n, history as nat, ch as int, s as int);
                assert(state.len() == state@.len());
            }
            let next: T = state[base + s + 1];
            state.set(base + s, next);
            s = s + 1;
        }
        proof {
            lemma_cell(n, history as nat, ch as int, history - 1);
            assert(state.len() == state@.len());
            assert(ch * history + history == (ch + 1) * history) by (nonlinear_arith);
        }
        state.set(base + history - 1, current[ch]);
        ch = ch + 1;
    }
    assert(state@ =~= want);
}

/// One step later, what a channel remembers is what its convolution saw, the oldest
/// sample aside.
pub proof fn law_the_window_slides<T>(current: Seq<T>, state: Seq<T>, history: int, ch: int, j: int)
    requires
        history >= 1,
        state.len() == current.len() * history,
        0 <= ch < current.len(),
        0 <= j < history,
    ensures
        shifted(current, state, history)[ch * history + j] == window(current, state, history, ch)[j
            + 1],
{
    lemma_cell(current.len(), history as nat, ch, j);
}

/// The key head that serves a value head: neighbours share one, or they take turns.
pub open spec fn key_head(s: GdnShape, tiled: bool, h: int) -> int {
    if tiled {
        h % s.k_heads as int
    } else {
        h / (s.v_heads as int / s.k_heads as int)
    }
}

/// The key head of every value head is one there is.
pub proof fn law_every_value_head_has_a_key_head(s: GdnShape, tiled: bool, h: int)
    requires
        s.wf(),
        0 <= h < s.v_heads,
    ensures
        0 <= key_head(s, tiled, h) < s.k_heads,
{
    let (k, v) = (s.k_heads as int, s.v_heads as int);
    let rep = v / k;
    vstd::arithmetic::div_mod::lemma_fundamental_div_mod(v, k);
    assert(rep >= 1) by (nonlinear_arith)
        requires
            v == k * rep + v % k,
            v % k == 0,
            v >= k,
            k >= 1,
    ;
    vstd::arithmetic::div_mod::lemma_fundamental_div_mod(h, rep);
    let q = h / rep;
    assert(0 <= q < k) by (nonlinear_arith)
        requires
            h == rep * q + h % rep,
            0 <= h % rep < rep,
            0 <= h < v,
            v == k * rep,
            rep >= 1,
    ;
}

/// Whether queries and keys are those of the heads of `y`, value head by value head.
pub open spec fn split_as<T>(y: Seq<T>, s: GdnShape, tiled: bool, q: Seq<T>, k: Seq<T>, v: Seq<T>) -> bool {
    &&& q.len() == s.v_heads * s.k_dim
    &&& k.len() == s.v_heads * s.k_dim
    &&& v == y.skip(2 * s.keys())
    &&& forall|h: int, d: int|
        0 <= h < s.v_heads && 0 <= d < s.k_dim ==> #[trigger] q[h * s.k_dim + d] == y[key_head(
            s,
            tiled,
            h,
        ) * s.k_dim + d]
    &&& forall|h: int, d: int|
        0 <= h < s.v_heads && 0 <= d < s.k_dim ==> #[trigger] k[h * s.k_dim + d] == y[s.keys()
            + key_head(s, tiled, h) * s.k_dim + d]
}

/// In a grouped model neighbours share a key head: where every key head serves `rep` value heads,
/// value head `g * rep + j` reads query and key of key head `g`.
pub proof fn law_grouped_neighbours_share_a_key_head<T>(
    y: Seq<T>,
    s: GdnShape,
    q: Seq<T>,
    k: Seq<T>,
    v: Seq<T>,
    rep: int,
    g: int,
    j: int,
    d: int,
)
    requires
        s.wf(),
        y.len() == s.channels(),
        split_as(y, s, false, q, k, v),
        rep * s.k_heads == s.v_heads,
        0 <= g < s.k_heads,
        0 <= j < rep,
        0 <= d < s.k_dim,
    ensures
        0 <= g * rep + j < s.v_heads,
        q[(g * rep + j) * s.k_dim + d] == y[g * s.k_dim + d],
        k[(g * rep + j) * s.k_dim + d] == y[s.k_heads * s.k_dim + g * s.k_dim + d],
{
    let h = g * rep + j;
    vstd::arithmetic::div_mod::lemma_div_multiples_vanish(rep, s.k_heads as int);
    assert(s.k_heads * rep == rep * s.k_heads) by (nonlinear_arith);
    assert(s.v_heads as int / s.k_heads as int == rep);
    assert(0 <= h < s.v_heads) by (nonlinear_arith)
        requires
            h == g * rep + j,
            0 <= g,
            g + 1 <= s.k_heads,
            0 <= j < rep,
            rep * s.k_heads == s.v_heads,
    ;
    vstd::arithmetic::div_mod::lemma_fundamental_div_mod_converse(h, rep, g, j);
    assert(s.k_dim * s.k_heads == s.k_heads * s.k_dim) by (nonlinear_arith);
    assert(q[h * s.k_dim + d] == y[key_head(s, false, h) * s.k_dim + d]);
    assert(k[h * s.k_dim + d] == y[s.keys() + key_head(s, false, h) * s.k_dim + d]);
}

/// In a tiled model the value heads take turns: the first read the key heads in order, and each of
/// the others reads what the one reads that stands as many places before it as there are key heads.
pub proof fn law_tiled_value_heads_take_turns<T>(
    y: Seq<T>,
    s: GdnShape,
    q: Seq<T>,
    k: Seq<T>,
    v: Seq<T>,
    h: int,
    d: int,
)
    requires
        s.wf(),
        y.len() == s.channels(),
        split_as(y, s, true, q, k, v),
        0 <= h < s.v_heads,
        0 <= d < s.k_dim,
    ensures
        h < s.k_heads ==> q[h * s.k_dim + d] == y[h * s.k_dim + d] && k[h * s.k_dim + d]
            == y[s.k_heads * s.k_dim + h * s.k_dim + d],
        h >= s.k_heads ==> q[h * s.k_dim + d] == q[(h - s.k_heads) * s.k_dim + d] && k[h * s.k_dim
            + d] == k[(h - s.k_heads) * s.k_dim + d],
{
    let n = s.k_heads as int;
    assert(s.k_dim * s.k_heads == s.k_heads * s.k_dim) by (nonlinear_arith);
    assert(q[h * s.k_dim + d] == y[key_head(s, true, h) * s.k_dim + d]);
    assert(k[h * s.k_dim + d] == y[s.keys() + key_head(s, true, h) * s.k_dim + d]);
    if h < n {
        vstd::arithmetic::div_mod::lemma_small_mod(h as nat, n as nat);
    } else {
        let e = h - n;
        vstd::arithmetic::div_mod::lemma_mod_add_multiples_vanish(e, n);
        assert(q[e * s.k_dim + d] == y[key_head(s, true, e) * s.k_dim + d]);
        assert(k[e * s.k_dim + d] == y[s.keys() + key_head(s, true, e) * s.k_dim + d]);
    }
}

/// Every value head keeps its own values: they stand behind all queries and keys, head by head.
pub proof fn law_values_stand_behind_queries_and_keys<T>(
    y: Seq<T>,
    s: GdnShape,
    tiled: bool,
    q: Seq<T>,
    k: Seq<T>,
    v: Seq<T>,
)
    requires
        s.wf(),
        y.len() == s.channels(),
        split_as(y, s, tiled, q, k, v),
    ensures
        v.len() == s.v_dim * s.v_heads,
        y == y.take(s.k_heads * s.k_dim) + y.subrange(
            s.k_heads * s.k_dim,
            2 * (s.k_heads * s.k_dim),
        ) + v,
{
    assert(s.k_dim * s.k_heads == s.k_heads * s.k_dim) by (nonlinear_arith);
    assert(0 <= s.k_heads * s.k_dim && 0 <= s.v_dim * s.v_heads) by (nonlinear_arith);
    assert(y =~= y.take(s.k_heads * s.k_dim) + y.subrange(
        s.k_heads * s.k_dim,
        2 * (s.k_heads * s.k_dim),
    ) + v);
}

/// The parts of a step head by head: queries, keys and values.
#[derive(Debug)]
pub struct HeadParts<T> {
    pub q: Vec<T>,
    pub k: Vec<T>,
    pub v: Vec<T>,
}

/// Copies a range.
fn copy_part<T: Copy>(from: &Vec<T>, at: usize, n: usize, out: &mut Vec<T>)
    requires
        at + n <= from@.len(),
    ensures
        final(out)@ == old(out)@ + from@.subrange(at as int, at + n),
{
    let ghost start = out@;
    let mut i: usize = 0;
    assert(from@.subrange(at as int, at as int) =~= Seq::<T>::empty());
    while i < n
        invariant
            i <= n,
            at + n <= from@.len(),
            from.len() == from@.len(),
            out@ == start + from@.subrange(at as int, at + i),
        decreases n - i,
    {
        out.push(from[at + i]);
        i = i + 1;
        assert(out@ =~= start + from@.subrange(at as int, at + i));
    }
}

/// Cuts what the convolution gave into heads: every value head gets the query and
/// the key of its key head, and its own values.
pub fn split_heads<T: Copy>(y: &Vec<T>, s: GdnShape, tiled: bool) -> (r: HeadParts<T>)
    requires
        s.wf(),
        y@.len() == s.channels(),
    ensures
        r.q@.len() == s.v_heads * s.k_dim,
        r.k@.len() == s.v_heads * s.k_dim,
        r.v@ == y@.skip(2 * s.keys()),
        split_as(y@, s, tiled, r.q@, r.k@, r.v@),
        forall|h: int, d: int|
            0 <= h < s.v_heads && 0 <= d < s.k_dim ==> #[trigger] r.q@[h * s.k_dim + d]
                == y@[key_head(s, tiled, h) * s.k_dim + d],
        forall|h: int, d: int|
            0 <= h < s.v_heads && 0 <= d < s.k_dim ==> #[trigger] r.k@[h * s.k_dim + d]
                == y@[s.keys() + key_head(s, tiled, h) * s.k_dim + d],
{
    proof {
        assert(y.len() == y@.len());
        assert(s.k_dim * s.k_heads == s.k_heads * s.k_dim) by (nonlinear_arith);
        assert(0 <= s.k_dim * s.k_heads && 0 <= s.v_dim * s.v_heads) by (nonlinear_arith)
            requires
                0 <= s.k_dim,
                0 <= s.k_heads,
                0 <= s.v_dim,
                0 <= s.v_heads,
        ;
    }
    let kdim: usize = s.k_dim * s.k_heads;
    let rep: usize = s.v_heads / s.k_heads;
    let mut q: Vec<T> = Vec::new();
    let mut k: Vec<T> = Vec::new();
    let mut h: usize = 0;
    assert(0 * s.k_dim == 0);
    while h < s.v_heads
        invariant
            s.wf(),
            y@.len() == s.channels(),
            y.len() == y@.len(),
            kdim == s.keys(),
            kdim == s.k_heads * s.k_dim,
            0 <= s.values(),
            rep == s.v_heads as int / s.k_heads as int,
            h <= s.v_heads,
            q@.len() == h * s.k_dim,
            k@.len() == h * s.k_dim,
            forall|g: int, d: int|
                0 <= g < h && 0 <= d < s.k_dim ==> #[trigger] q@[g * s.k_dim + d]
                    == y@[key_head(s, tiled, g) * s.k_dim + d],
            forall|g: int, d: int|
                0 <= g < h && 0 <= d < s.k_dim ==> #[trigger] k@[g * s.k_dim + d]
                    == y@[s.keys() + key_head(s, tiled, g) * s.k_dim + d],
        decreases s.v_heads - h,
    {
        proof {
            law_every_value_head_has_a_key_head(s, tiled, h as int);
            let (a, b) = (s.k_heads as int, s.v_heads as int);
            vstd::arithmetic::div_mod::lemma_fundamental_div_mod(b, a);
            assert(rep >= 1) by (nonlinear_arith)
                requires
                    b == a * rep + b % a,
                    b % a == 0,
                    b >= a,
                    a >= 1,
            ;
        }
        let head: usize = if tiled {
            h % s.k_heads
        } else {
            h / rep
        };
        proof {
            assert(head * s.k_dim + s.k_dim <= s.k_heads * s.k_dim && 0 <= head * s.k_dim)
                by (nonlinear_arith)
                requires
                    0 <= head,
                    head + 1 <= s.k_heads,
                    0 <= s.k_dim,
            ;
        }
        let ghost (q0, k0) = (q@, k@);
        copy_part(y, head * s.k_dim, s.k_dim, &mut q);
        copy_part(y, kdim + head * s.k_dim, s.k_dim, &mut k);
        proof {
            assert(h * s.k_dim + s.k_dim == (h + 1) * s.k_dim) by (nonlinear_arith);
            assert forall|g: int, d: int| 0 <= g < h + 1 && 0 <= d < s.k_dim implies #[trigger] q@[g
                * s.k_dim + d] == y@[key_head(s, tiled, g) * s.k_dim + d] by {
                if g < h {
                    lemma_cell(h as nat, s.k_dim as nat, g, d);
                    assert(q0[g * s.k_dim + d] == y@[key_head(s, tiled, g) * s.k_dim + d]);
                }
            }
            assert forall|g: int, d: int| 0 <= g < h + 1 && 0 <= d < s.k_dim implies #[trigger] k@[g
                * s.k_dim + d] == y@[s.keys() + key_head(s, tiled, g) * s.k_dim + d] by {
                if g < h {
                    lemma_cell(h as nat, s.k_dim as nat, g, d);
                    assert(k0[g * s.k_dim + d] == y@[s.keys() + key_head(s, tiled, g) * s.k_dim
                        + d]);
                }
            }
        }
        h = h + 1;
    }
    let mut v: Vec<T> = Vec::new();
    copy_part(y, 2 * kdim, y.len() - 2 * kdim, &mut v);
    assert(v@ =~= y@.skip(2 * s.keys()));
    HeadParts { q, k, v }
}

/// Rows one behind the other.
pub open spec fn flat<T>(rows: Seq<Vec<T>>, n: int) -> Seq<T>
    decreases n,
{
    if n <= 0 {
        Seq::empty()
    } else {
        flat(rows, n - 1) + rows[n - 1]@
    }
}

/// Puts rows one behind the other.
pub fn flatten_rows<T: Copy>(rows: &Vec<Vec<T>>) -> (r: Vec<T>)
    ensures
        r@ == flat(rows@, rows@.len() as int),
{
    let mut r: Vec<T> = Vec::new();
    let mut i: usize = 0;
    while i < rows.len()
        invariant
            i <= rows.len(),
            r@ == flat(rows@, i as int),
        decreases rows.len() - i,
    {
        let ghost before = r@;
        copy_part(&rows[i], 0, rows[i].len(), &mut r);
        proof {
            assert(rows@[i as int]@.subrange(0, rows@[i as int]@.len() as int)
                =~= rows@[i as int]@);
        }
        i = i + 1;
    }
    r
}

/// Whether all rows have a width.
pub open spec fn all_wide<T>(rows: Seq<Vec<T>>, width: int) -> bool {
    forall|i: int| 0 <= i < rows.len() ==> (#[trigger] rows[i])@.len() == width
}

/// Whether all rows have a width.
pub fn check_wide<T>(rows: &Vec<Vec<T>>, width: usize) -> (r: bool)
    ensures
        r == all_wide(rows@, width as int),
{
    let mut i: usize = 0;
    while i < rows.len()
        invariant
            i <= rows.len(),
            forall|k: int| 0 <= k < i ==> (#[trigger] rows@[k])@.len() == width,
        decreases rows.len() - i,
    {
        if rows[i].len() != width {
            return false;
        }
        i = i + 1;
    }
    true
}

/// Whether the rows of a chunk can go through a layer together: there are several,
/// there is a place for each, all are as wide as the model, the layer is one of
/// linear attention, and it is not switched off.
pub fn chunk_is_batched<T>(
    settings: &Settings,
    is_gdn: bool,
    hidden: usize,
    xs: &Vec<Vec<T>>,
    outs: &Vec<Vec<T>>,
) -> (r: bool)
    ensures
        r == (xs@.len() > 1 && outs@.len() == xs@.len() && is_gdn && switch_on(
            settings.value("QWEN_PREFILL_GDN_BATCH"@),
            true,
        ) && all_wide(xs@, hidden as int) && all_wide(outs@, hidden as int)),
{
    if xs.len() <= 1 || outs.len() != xs.len() || !is_gdn {
        return false;
    }
    if !settings.on("QWEN_PREFILL_GDN_BATCH", true) {
        return false;
    }
    check_wide(xs, hidden) && check_wide(outs, hidden)
}

/// What is to be done next for a step of a layer.
#[derive(Clone, Copy, Debug, PartialEq, Eq, Structural)]
pub enum GdnStage {
    /// Make the whole step on the device, from quantized weights.
    FullDevice,
    /// Start the whole step on the device.
    DeviceBegin,
    /// While the device runs, bring the experts of the last route in.
    Prefetch,
    /// Wait for the step on the device.
    DeviceFinish,
    /// Make the whole step on the device.
    DeviceToken,
    /// Project the input on the neural engine.
    NeuralInput,
    /// Project the input on the device.
    DeviceInput,
    /// Project the input in one call from quantized weights.
    FusedInput,
    /// Project the input on the host.
    HostInput,
    /// Convolve on the neural engine's side.
    NeuralConv,
    /// Convolve on the host.
    HostConv,
    /// Update the state and read it out.
    Recur,
    /// Project the output on the device.
    DeviceOutput,
    /// Project the output on the host.
    HostOutput,
    Done,
    /// The device failed with a step it had taken on: there is no going back.
    Broken,
}

/// What came of a stage: it is done, it was declined and nothing has happened, or
/// it failed after it had been taken on.
#[derive(Clone, Copy, Debug, PartialEq, Eq, Structural)]
pub enum GdnReply {
    Done,
    Declined,
    Failed,
}

/// How a device reports: positive for done, zero for declined, negative for failed.
pub fn device_reply(rc: i32) -> (r: GdnReply)
    ensures
        r == (if rc > 0 {
            GdnReply::Done
        } else if rc < 0 {
            GdnReply::Failed
        } else {
            GdnReply::Declined
        }),
{
    if rc > 0 {
        GdnReply::Done
    } else if rc < 0 {
        GdnReply::Failed
    } else {
        GdnReply::Declined
    }
}

/// A step of a layer on its way.
#[derive(Clone, Copy, Debug, PartialEq, Eq, Structural)]
pub struct GdnRun {
    /// Whether the neural engine is asked for.
    pub neural: bool,
    /// Whether the device has copies of the weights as bfloat16.
    pub device_weights: bool,
    /// Whether the device runs whole steps from bfloat16 weights.
    pub device_step: bool,
    /// Whether experts are brought in while the device runs.
    pub prefetch: bool,
    /// Whether the device projects from bfloat16 weights.
    pub device_projects: bool,
    /// Whether quantized weights are projected in one call.
    pub fused: bool,
    pub stage: GdnStage,
    /// Whether the neural engine has projected the input.
    pub neural_input: bool,
    /// Whether the state has been updated in this step.
    pub updated: bool,
}

impl GdnRun {
    /// The state is updated once: by a whole step, or where it is updated here.
    pub open spec fn wf(self) -> bool {
        &&& (self.stage is DeviceOutput || self.stage is HostOutput || self.stage is Done)
            == self.updated
        &&& self.stage is NeuralConv ==> self.neural_input
        &&& self.stage is NeuralInput ==> self.neural && self.device_weights
        &&& self.neural_input ==> self.neural && self.device_weights
        &&& (self.stage is DeviceBegin || self.stage is Prefetch || self.stage is DeviceFinish
            || self.stage is DeviceToken) ==> self.device_step && self.device_weights && !self.neural
    }

    /// What follows where no whole step is made on the device.
    pub open spec fn projecting(self) -> GdnRun {
        GdnRun {
            stage: if self.neural && self.device_weights {
                GdnStage::NeuralInput
            } else if self.device_weights && self.device_projects {
                GdnStage::DeviceInput
            } else if !self.device_weights && self.fused {
                GdnStage::FusedInput
            } else {
                GdnStage::HostInput
            },
            ..self
        }
    }

    /// What follows where the neural engine does not project the input.
    pub open spec fn without_neural(self) -> GdnRun {
        GdnRun {
            stage: if self.device_projects {
                GdnStage::DeviceInput
            } else {
                GdnStage::HostInput
            },
            ..self
        }
    }

    /// Where whole steps on the device from bfloat16 weights come in.
    pub open spec fn stepping(self) -> GdnRun {
        if !self.neural && self.device_step && self.device_weights {
            GdnRun {
                stage: if self.prefetch {
                    GdnStage::DeviceBegin
                } else {
                    GdnStage::DeviceToken
                },
                ..self
            }
        } else {
            self.projecting()
        }
    }

    /// What follows a whole step that the device was asked for.
    pub open spec fn whole(self, reply: GdnReply, declined: GdnRun) -> GdnRun {
        match reply {
            GdnReply::Done => GdnRun { stage: GdnStage::Done, updated: true, ..self },
            GdnReply::Declined => declined,
            GdnReply::Failed => GdnRun { stage: GdnStage::Broken, ..self },
        }
    }

    /// What follows a stage.
    pub open spec fn after(self, reply: GdnReply) -> GdnRun {
        let ok = reply is Done;
        match self.stage {
            GdnStage::FullDevice => self.whole(reply, self.stepping()),
            GdnStage::DeviceBegin => if ok {
                GdnRun { stage: GdnStage::Prefetch, ..self }
            } else {
                self.projecting()
            },
            GdnStage::Prefetch => GdnRun { stage: GdnStage::DeviceFinish, ..self },
            GdnStage::DeviceFinish => self.whole(reply, self.projecting()),
            GdnStage::DeviceToken => self.whole(reply, self.projecting()),
            GdnStage::NeuralInput => if ok {
                GdnRun { stage: GdnStage::NeuralConv, neural_input: true, ..self }
            } else {
                self.without_neural()
            },
            GdnStage::DeviceInput => GdnRun {
                stage: if ok {
                    GdnStage::HostConv
                } else {
                    GdnStage::HostInput
                },
                ..self
            },
            GdnStage::FusedInput => GdnRun {
                stage: if ok {
                    GdnStage::HostConv
                } else {
                    GdnStage::HostInput
                },
                ..self
            },
            GdnStage::HostInput => GdnRun { stage: GdnStage::HostConv, ..self },
            GdnStage::NeuralConv => GdnRun {
                stage: if ok {
                    GdnStage::Recur
                } else {
                    GdnStage::HostConv
                },
                ..self
            },
            GdnStage::HostConv => GdnRun { stage: GdnStage::Recur, ..self },
            GdnStage::Recur => GdnRun {
                stage: if self.device_weights && self.device_projects {
                    GdnStage::DeviceOutput
                } else {
                    GdnStage::HostOutput
                },
                updated: true,
                ..self
            },
            GdnStage::DeviceOutput => GdnRun {
                stage: if ok {
                    GdnStage::Done
                } else {
                    GdnStage::HostOutput
                },
                ..self
            },
            GdnStage::HostOutput => GdnRun { stage: GdnStage::Done, ..self },
            GdnStage::Done => self,
            GdnStage::Broken => self,
        }
    }

    /// How far a step is from its end.
    pub open spec fn distance(self) -> int {
        match self.stage {
            GdnStage::FullDevice => 15,
            GdnStage::DeviceBegin => 14,
            GdnStage::Prefetch => 13,
            GdnStage::DeviceFinish => 12,
            GdnStage::DeviceToken => 12,
            GdnStage::NeuralInput => 11,
            GdnStage::DeviceInput => 9,
            GdnStage::FusedInput => 9,
            GdnStage::HostInput => 8,
            GdnStage::NeuralConv => 7,
            GdnStage::HostConv => 6,
            GdnStage::Recur => 5,
            GdnStage::DeviceOutput => 4,
            GdnStage::HostOutput => 3,
            GdnStage::Done => 0,
            GdnStage::Broken => 0,
        }
    }

    /// The beginning of a step. `device` is what the device has of the layer: nothing,
    /// or its state, with or without bfloat16 weights.
    pub open spec fn begun(s: Settings, neural: bool, device: Option<bool>) -> GdnRun {
        let weights = device == Some(true);
        let run = GdnRun {
            neural,
            device_weights: weights,
            device_step: switch_on(s.value("QWEN_GDN_METAL"@), false),
            prefetch: switch_on(s.value("QWEN_GDN_PREFETCH_OVERLAP"@), false),
            device_projects: switch_on(s.value("QWEN_GDN_BF16_METAL"@), false),
            fused: switch_on(s.value("QWEN_GDN_FUSED_INPUT"@), true),
            stage: GdnStage::FullDevice,
            neural_input: false,
            updated: false,
        };
        if switch_on(s.value("QWEN_GDN_MXFP4_FULL"@), false) && !neural && device == Some(false) {
            run
        } else {
            run.stepping()
        }
    }

    fn project(&mut self)
        ensures
            *final(self) == old(self).projecting(),
    {
        self.stage = if self.neural && self.device_weights {
            GdnStage::NeuralInput
        } else if self.device_weights && self.device_projects {
            GdnStage::DeviceInput
        } else if !self.device_weights && self.fused {
            GdnStage::FusedInput
        } else {
            GdnStage::HostInput
        };
    }

    fn step_on_device(&mut self)
        ensures
            *final(self) == old(self).stepping(),
    {
        if !self.neural && self.device_step && self.device_weights {
            self.stage = if self.prefetch {
                GdnStage::DeviceBegin
            } else {
                GdnStage::DeviceToken
            };
        } else {
            self.project();
        }
    }

    /// Begins a step of a layer.
    pub fn start(settings: &Settings, neural: bool, device: Option<bool>) -> (r: GdnRun)
        ensures
            r == GdnRun::begun(*settings, neural, device),
            r.wf(),
    {
        let (weights, quantized): (bool, bool) = match device {
            Some(w) => (w, !w),
            None => (false, false),
        };
        let mut run = GdnRun {
            neural,
            device_weights: weights,
            device_step: settings.on("QWEN_GDN_METAL", false),
            prefetch: settings.on("QWEN_GDN_PREFETCH_OVERLAP", false),
            device_projects: settings.on("QWEN_GDN_BF16_METAL", false),
            fused: settings.on("QWEN_GDN_FUSED_INPUT", true),
            stage: GdnStage::FullDevice,
            neural_input: false,
            updated: false,
        };
        if !(settings.on("QWEN_GDN_MXFP4_FULL", false) && !neural && quantized) {
            run.step_on_device();
        }
        run
    }

    /// Goes on to the next stage.
    pub fn step(&mut self, reply: GdnReply)
        requires
            old(self).wf(),
        ensures
            *final(self) == old(self).after(reply),
            final(self).wf(),
    {
        let ok: bool = match reply {
            GdnReply::Done => true,
            _ => false,
        };
        match self.stage {
            GdnStage::FullDevice => match reply {
                GdnReply::Done => {
                    self.stage = GdnStage::Done;
                    self.updated = true;
                },
                GdnReply::Declined => {
                    self.step_on_device();
                },
                GdnReply::Failed => {
                    self.stage = GdnStage::Broken;
                },
            },
            GdnStage::DeviceBegin => {
                if ok {
                    self.stage = GdnStage::Prefetch;
                } else {
                    self.project();
                }
            },
            GdnStage::Prefetch => {
                self.stage = GdnStage::DeviceFinish;
            },
            GdnStage::DeviceFinish | GdnStage::DeviceToken => match reply {
                GdnReply::Done => {
                    self.stage = GdnStage::Done;
                    self.updated = true;
                },
                GdnReply::Declined => {
                    self.project();
                },
                GdnReply::Failed => {
                    self.stage = GdnStage::Broken;
                },
            },
            GdnStage::NeuralInput => {
                if ok {
                    self.stage = GdnStage::NeuralConv;
                    self.neural_input = true;
                } else {
                    self.stage = if self.device_projects {
                        GdnStage::DeviceInput
                    } else {
                        GdnStage::HostInput
                    };
                }
            },
            GdnStage::DeviceInput | GdnStage::FusedInput => {
                self.stage = if ok {
                    GdnStage::HostConv
                } else {
                    GdnStage::HostInput
                };
            },
            GdnStage::HostInput => {
                self.stage = GdnStage::HostConv;
            },
            GdnStage::NeuralConv => {
                self.stage = if ok {
                    GdnStage::Recur
                } else {
                    GdnStage::HostConv
                };
            },
            GdnStage::HostConv => {
                self.stage = GdnStage::Recur;
            },
            GdnStage::Recur => {
                self.updated = true;
                self.stage = if self.device_weights && self.device_projects {
                    GdnStage::DeviceOutput
                } else {
                    GdnStage::HostOutput
                };
            },
            GdnStage::DeviceOutput => {
                self.stage = if ok {
                    GdnStage::Done
                } else {
                    GdnStage::HostOutput
                };
            },
            GdnStage::HostOutput => {
                self.stage = GdnStage::Done;
            },
            GdnStage::Done => {},
            GdnStage::Broken => {},
        }
    }
}

/// Every step comes to an end, and a step that ends well has updated the state
/// exactly once.
pub proof fn law_every_step_ends(run: GdnRun, reply: GdnReply)
    requires
        run.wf(),
        !(run.stage is Done || run.stage is Broken),
    ensures
        run.after(reply).wf(),
        0 <= run.after(reply).distance() < run.distance(),
        run.after(reply).stage is Done ==> run.after(reply).updated,
        run.updated ==> !(run.stage is Recur) && run.after(reply).updated,
{
}

/// A step only breaks where a device failed with a whole step that it had taken on.
pub proof fn law_only_a_failed_device_breaks_a_step(run: GdnRun, reply: GdnReply)
    requires
        run.wf(),
        !(run.stage is Broken),
        run.after(reply).stage is Broken,
    ensures
        reply is Failed,
        run.stage is FullDevice || run.stage is DeviceFinish || run.stage is DeviceToken,
        !run.updated,
{
}

/// What is to be done next for the rows of a chunk that go through a layer together.
#[derive(Clone, Copy, Debug, PartialEq, Eq, Structural)]
pub enum ChunkStage {
    /// Project all rows by a matrix of the input.
    Project(GdnMatrix),
    /// Convolve the rows and update the state, one after the other.
    Rows,
    /// Project what came out of all rows in one call.
    Output,
    /// Project it row by row on the host.
    HostOutput,
    Done,
    /// The rows have to go through the layer one by one.
    Declined,
}

/// Where a chunk begins. Rows go together only where the device has the weights of the layer
/// as bfloat16: `device` is what it has, as for a single step.
pub open spec fn chunk_begun(batched: bool, device: Option<bool>) -> ChunkStage {
    if batched && device == Some(true) {
        ChunkStage::Project(GdnMatrix::Qkv)
    } else {
        ChunkStage::Declined
    }
}

/// What follows a stage of a chunk.
pub open spec fn chunk_after(stage: ChunkStage, ok: bool) -> ChunkStage {
    match stage {
        ChunkStage::Project(m) => if !ok {
            ChunkStage::Declined
        } else {
            match m {
                GdnMatrix::Qkv => ChunkStage::Project(GdnMatrix::Z),
                GdnMatrix::Z => ChunkStage::Project(GdnMatrix::A),
                GdnMatrix::A => ChunkStage::Project(GdnMatrix::B),
                _ => ChunkStage::Rows,
            }
        },
        ChunkStage::Rows => ChunkStage::Output,
        ChunkStage::Output => if ok {
            ChunkStage::Done
        } else {
            ChunkStage::HostOutput
        },
        ChunkStage::HostOutput => ChunkStage::Done,
        ChunkStage::Done => ChunkStage::Done,
        ChunkStage::Declined => ChunkStage::Declined,
    }
}

/// How far a chunk is from its end.
pub open spec fn chunk_distance(stage: ChunkStage) -> int {
    match stage {
        ChunkStage::Project(m) => 9 - m.place(),
        ChunkStage::Rows => 3,
        ChunkStage::Output => 2,
        ChunkStage::HostOutput => 1,
        ChunkStage::Done => 0,
        ChunkStage::Declined => 0,
    }
}

/// Begins with a chunk.
pub fn chunk_start(batched: bool, device: Option<bool>) -> (r: ChunkStage)
    ensures
        r == chunk_begun(batched, device),
{
    match device {
        Some(true) => if batched {
            ChunkStage::Project(GdnMatrix::Qkv)
        } else {
            ChunkStage::Declined
        },
        _ => ChunkStage::Declined,
    }
}

/// Goes on with a chunk.
pub fn chunk_step(stage: ChunkStage, ok: bool) -> (r: ChunkStage)
    ensures
        r == chunk_after(stage, ok),
{
    match stage {
        ChunkStage::Project(m) => if !ok {
            ChunkStage::Declined
        } else {
            match m {
                GdnMatrix::Qkv => ChunkStage::Project(GdnMatrix::Z),
                GdnMatrix::Z => ChunkStage::Project(GdnMatrix::A),
                GdnMatrix::A => ChunkStage::Project(GdnMatrix::B),
                _ => ChunkStage::Rows,
            }
        },
        ChunkStage::Rows => ChunkStage::Output,
        ChunkStage::Output => if ok {
            ChunkStage::Done
        } else {
            ChunkStage::HostOutput
        },
        ChunkStage::HostOutput => ChunkStage::Done,
        ChunkStage::Done => ChunkStage::Done,
        ChunkStage::Declined => ChunkStage::Declined,
    }
}

/// Every chunk comes to an end, and none is declined once rows have updated the state.
pub proof fn law_a_chunk_is_declined_before_it_changes_the_state(stage: ChunkStage, ok: bool)
    requires
        !(stage is Done || stage is Declined),
    ensures
        0 <= chunk_distance(chunk_after(stage, ok)) < chunk_distance(stage),
        chunk_after(stage, ok) is Declined ==> stage is Project,
        stage is Rows ==> chunk_after(stage, ok) is Output,
        stage is Output || stage is HostOutput ==> chunk_after(stage, ok) is HostOutput
            || chunk_after(stage, ok) is Done,
{
}

/// The bfloat16 bytes of the five matrices of a layer, for the device.
pub struct DeviceWeights {
    pub qkv: Vec<u8>,
    pub z: Vec<u8>,
    pub a: Vec<u8>,
    pub b: Vec<u8>,
    pub out: Vec<u8>,
}

/// Whether a matrix is held as bfloat16.
pub open spec fn is_brain(w: Wt) -> bool {
    w.bytes matches Some(WtBytes::Bf16 { .. })
}

/// The bfloat16 bytes of a matrix.
pub open spec fn brain_bytes(w: Wt) -> Seq<u8> {
    match w.bytes {
        Some(WtBytes::Bf16 { weights, .. }) => weights@,
        _ => Seq::empty(),
    }
}

/// A matrix whose bytes have been given away, or the same matrix.
pub open spec fn given(before: Wt, after: Wt, away: bool) -> bool {
    &&& after.f == before.f && after.o == before.o && after.i == before.i
    &&& after.bytes == (if away {
        None
    } else {
        before.bytes
    })
}

/// Gives the bfloat16 bytes of a matrix away, or a copy of them.
fn give(w: &mut Wt, away: bool) -> (r: Vec<u8>)
    requires
        is_brain(*old(w)),
    ensures
        r@ == brain_bytes(*old(w)),
        given(*old(w), *final(w), away),
{
    let r: Vec<u8> = match &w.bytes {
        Some(WtBytes::Bf16 { weights, .. }) => weights.clone(),
        _ => Vec::new(),
    };
    if away {
        w.bytes = None;
    }
    r
}

/// Whether all five matrices of a layer are held as bfloat16.
pub open spec fn all_brain(l: Layer) -> bool {
    is_brain(l.gdn_in_qkv) && is_brain(l.gdn_in_z) && is_brain(l.gdn_in_a) && is_brain(l.gdn_in_b)
        && is_brain(l.gdn_out)
}

/// The weights of a layer for the device, where all of them are bfloat16. Unless it
/// is switched off, the layer gives its own copies up.
pub fn device_weights(layer: &mut Layer, settings: &Settings) -> (r: Option<DeviceWeights>)
    ensures
        r is Some <==> all_brain(*old(layer)),
        r is None ==> *final(layer) == *old(layer),
        r matches Some(d) ==> {
            let away = switch_on(settings.value("QWEN_GDN_SINGLE_COPY"@), true);
            &&& d.qkv@ == brain_bytes(old(layer).gdn_in_qkv)
            &&& d.z@ == brain_bytes(old(layer).gdn_in_z)
            &&& d.a@ == brain_bytes(old(layer).gdn_in_a)
            &&& d.b@ == brain_bytes(old(layer).gdn_in_b)
            &&& d.out@ == brain_bytes(old(layer).gdn_out)
            &&& given(old(layer).gdn_in_qkv, final(layer).gdn_in_qkv, away)
            &&& given(old(layer).gdn_in_z, final(layer).gdn_in_z, away)
            &&& given(old(layer).gdn_in_a, final(layer).gdn_in_a, away)
            &&& given(old(layer).gdn_in_b, final(layer).gdn_in_b, away)
            &&& given(old(layer).gdn_out, final(layer).gdn_out, away)
            &&& *final(layer) == (Layer {
                gdn_in_qkv: final(layer).gdn_in_qkv,
                gdn_in_z: final(layer).gdn_in_z,
                gdn_in_a: final(layer).gdn_in_a,
                gdn_in_b: final(layer).gdn_in_b,
                gdn_out: final(layer).gdn_out,
                ..*old(layer)
            })
        },
{
    if layer.gdn_in_qkv.bf16_bytes().is_none() || layer.gdn_in_z.bf16_bytes().is_none()
        || layer.gdn_in_a.bf16_bytes().is_none() || layer.gdn_in_b.bf16_bytes().is_none()
        || layer.gdn_out.bf16_bytes().is_none() {
        return None;
    }
    let away: bool = settings.on("QWEN_GDN_SINGLE_COPY", true);
    let qkv: Vec<u8> = give(&mut layer.gdn_in_qkv, away);
    let z: Vec<u8> = give(&mut layer.gdn_in_z, away);
    let a: Vec<u8> = give(&mut layer.gdn_in_a, away);
    let b: Vec<u8> = give(&mut layer.gdn_in_b, away);
    let out: Vec<u8> = give(&mut layer.gdn_out, away);
    Some(DeviceWeights { qkv, z, a, b, out })
}

/// The matrices of a layer of linear attention, in the order in which they are converted.
#[derive(Clone, Copy, Debug, PartialEq, Eq, Structural)]
pub enum GdnMatrix {
    Qkv,
    Z,
    A,
    B,
    Out,
}

impl GdnMatrix {
    /// Its place in that order.
    pub open spec fn place(self) -> int {
        match self {
            GdnMatrix::Qkv => 0,
            GdnMatrix::Z => 1,
            GdnMatrix::A => 2,
            GdnMatrix::B => 3,
            GdnMatrix::Out => 4,
        }
    }

    /// The name that a scope has for it.
    pub open spec fn title(self) -> Seq<char> {
        match self {
            GdnMatrix::Qkv => "qkv"@,
            GdnMatrix::Z => "z"@,
            GdnMatrix::A => "a"@,
            GdnMatrix::B => "b"@,
            GdnMatrix::Out => "out"@,
        }
    }

    /// The matrix of a layer.
    pub open spec fn of(self, l: Layer) -> Wt {
        match self {
            GdnMatrix::Qkv => l.gdn_in_qkv,
            GdnMatrix::Z => l.gdn_in_z,
            GdnMatrix::A => l.gdn_in_a,
            GdnMatrix::B => l.gdn_in_b,
            GdnMatrix::Out => l.gdn_out,
        }
    }
}

/// What matrices are converted into.
#[derive(Clone, Copy, Debug, PartialEq, Eq, Structural)]
pub enum Form {
    /// Codes of four bits.
    Codes,
    /// Blocks of signed bytes.
    Blocks { block: usize, residuals: usize },
}

impl Form {
    /// Whether a stored form is of this kind already.
    pub open spec fn has(self, b: WtBytes) -> bool {
        match self {
            Form::Codes => b is Mxfp4,
            Form::Blocks { .. } => b is Q8Block,
        }
    }

    /// Whether the form is supported: a correction stands for a block of thirty-two.
    pub open spec fn supported(self) -> bool {
        self matches Form::Blocks { block, residuals } ==> (residuals == 1 ==> block == 32)
    }

    /// The stored form that is made of what was packed.
    pub open spec fn made(self, p: (Vec<u8>, Vec<u8>)) -> WtBytes {
        match self {
            Form::Codes => WtBytes::Mxfp4 { weights: p.0, scales: p.1, metal_tensor: 0 },
            Form::Blocks { block, residuals } => WtBytes::Q8Block {
                weights: p.0,
                scales: p.1,
                block,
                residuals,
                metal_tensor: 0,
            },
        }
    }
}

/// Whether a matrix is what converting makes of another one: what has the form stays as it
/// is, bfloat16 weights are packed by the rule.
pub open spec fn converted<F: Fn(&Vec<u8>, usize, usize) -> Option<Packed>>(
    form: Form,
    rule: Rule<F>,
    before: Wt,
    after: Wt,
) -> bool {
    match before.bytes {
        Some(WtBytes::Bf16 { weights, .. }) => {
            &&& after.o == before.o && after.i == before.i && after.f == before.f
            &&& exists|p: (Vec<u8>, Vec<u8>)| #[trigger]
                rule.gives(weights, before.o, before.i, Some(p)) && after.bytes == Some(form.made(p))
        },
        Some(b) => form.has(b) && after == before,
        None => false,
    }
}

/// Whether a matrix cannot be converted.
pub open spec fn refused<F: Fn(&Vec<u8>, usize, usize) -> Option<Packed>>(
    form: Form,
    rule: Rule<F>,
    w: Wt,
) -> bool {
    match w.bytes {
        Some(WtBytes::Bf16 { weights, .. }) => rule.gives(weights, w.o, w.i, None),
        Some(b) => !form.has(b),
        None => true,
    }
}

/// Whether a matrix of a layer has been converted, where it is reached and a scope names it,
/// or has stayed the same.
pub open spec fn reached<F: Fn(&Vec<u8>, usize, usize) -> Option<Packed>>(
    form: Form,
    rule: Rule<F>,
    before: Layer,
    after: Layer,
    scope: Seq<char>,
    upto: int,
    m: GdnMatrix,
) -> bool {
    if m.place() < upto && scope_names(scope, m.title()) {
        converted(form, rule, m.of(before), m.of(after))
    } else {
        m.of(after) == m.of(before)
    }
}

/// Whether the first `upto` matrices of a layer have been converted, as far as a scope names
/// them, and nothing else has changed.
pub open spec fn layer_converted<F: Fn(&Vec<u8>, usize, usize) -> Option<Packed>>(
    form: Form,
    rule: Rule<F>,
    before: Layer,
    after: Layer,
    scope: Seq<char>,
    upto: int,
) -> bool {
    &&& reached(form, rule, before, after, scope, upto, GdnMatrix::Qkv)
    &&& reached(form, rule, before, after, scope, upto, GdnMatrix::Z)
    &&& reached(form, rule, before, after, scope, upto, GdnMatrix::A)
    &&& reached(form, rule, before, after, scope, upto, GdnMatrix::B)
    &&& reached(form, rule, before, after, scope, upto, GdnMatrix::Out)
    &&& after == (Layer {
        gdn_in_qkv: after.gdn_in_qkv,
        gdn_in_z: after.gdn_in_z,
        gdn_in_a: after.gdn_in_a,
        gdn_in_b: after.gdn_in_b,
        gdn_out: after.gdn_out,
        ..before
    })
}

/// One for a matrix that is asked for and held as bfloat16.
pub open spec fn counted(asked: bool, w: Wt) -> nat {
    if asked && is_brain(w) {
        1
    } else {
        0
    }
}

/// How many matrices of a layer are converted.
pub open spec fn converted_in(l: Layer, scope: Seq<char>) -> nat {
    counted(scope_names(scope, "qkv"@), l.gdn_in_qkv) + counted(scope_names(scope, "z"@), l.gdn_in_z)
        + counted(scope_names(scope, "a"@), l.gdn_in_a) + counted(
        scope_names(scope, "b"@),
        l.gdn_in_b,
    ) + counted(scope_names(scope, "out"@), l.gdn_out)
}

/// Converts a matrix where it is asked for: how many were converted, or nothing where it
/// cannot be.
fn convert_asked<F: Fn(&Vec<u8>, usize, usize) -> Option<Packed>>(
    w: &mut Wt,
    asked: bool,
    form: Form,
    rule: &Rule<F>,
) -> (r: Option<usize>)
    requires
        rule.callable(),
        form.supported(),
    ensures
        match r {
            Some(n) => n == counted(asked, *old(w)) && (if asked {
                converted(form, *rule, *old(w), *final(w))
            } else {
                *final(w) == *old(w)
            }),
            None => asked && refused(form, *rule, *old(w)) && *final(w) == *old(w),
        },
{
    if !asked {
        return Some(0);
    }
    let brain: bool = w.bf16_bytes().is_some();
    let done: bool = match form {
        Form::Codes => quantize_wt_bf16_to_mxfp4(w, rule),
        Form::Blocks { block, residuals } => {
            let packed: Option<(Vec<u8>, Vec<u8>)> = match &w.bytes {
                Some(WtBytes::Bf16 { weights, .. }) => rule.pack(weights, w.o, w.i),
                Some(WtBytes::Q8Block { .. }) => {
                    return Some(0);
                },
                _ => {
                    return None;
                },
            };
            let ghost p = packed;
            assert(rule.gives(old(w).bytes->0->Bf16_weights, old(w).o, old(w).i, p));
            let done: bool = quantize_wt_bf16_to_q8_block(w, block, residuals, packed);
            assert(done ==> w.bytes == Some(form.made(p->0)));
            done
        },
    };
    if done {
        Some(
            if brain {
                1
            } else {
                0
            },
        )
    } else {
        None
    }
}

/// Converts the matrices of a layer that a scope names: how many were converted, or the
/// first that cannot be.
#[verifier::spinoff_prover]
#[verifier::rlimit(60)]
fn convert_layer<F: Fn(&Vec<u8>, usize, usize) -> Option<Packed>>(
    layer: &mut Layer,
    scope: &str,
    form: Form,
    rule: &Rule<F>,
) -> (r: Result<usize, GdnMatrix>)
    requires
        rule.callable(),
        form.supported(),
    ensures
        match r {
            Ok(n) => n == converted_in(*old(layer), scope@) && n <= 5 && layer_converted(
                form,
                *rule,
                *old(layer),
                *final(layer),
                scope@,
                5,
            ),
            Err(m) => {
                &&& scope_names(scope@, m.title())
                &&& refused(form, *rule, m.of(*old(layer)))
                &&& layer_converted(form, *rule, *old(layer), *final(layer), scope@, m.place())
            },
        },
{
    let qkv: usize = match convert_asked(
        &mut layer.gdn_in_qkv,
        name_selected(scope, "qkv"),
        form,
        rule,
    ) {
        Some(n) => n,
        None => {
            return Err(GdnMatrix::Qkv);
        },
    };
    let z: usize = match convert_asked(&mut layer.gdn_in_z, name_selected(scope, "z"), form, rule) {
        Some(n) => n,
        None => {
            return Err(GdnMatrix::Z);
        },
    };
    let a: usize = match convert_asked(&mut layer.gdn_in_a, name_selected(scope, "a"), form, rule) {
        Some(n) => n,
        None => {
            return Err(GdnMatrix::A);
        },
    };
    let b: usize = match convert_asked(&mut layer.gdn_in_b, name_selected(scope, "b"), form, rule) {
        Some(n) => n,
        None => {
            return Err(GdnMatrix::B);
        },
    };
    let out: usize = match convert_asked(&mut layer.gdn_out, name_selected(scope, "out"), form, rule) {
        Some(n) => n,
        None => {
            return Err(GdnMatrix::Out);
        },
    };
    Ok(qkv + z + a + b + out)
}

/// Whether a layer is one of linear attention that the settings name.
pub open spec fn is_named(l: Layer, spec: Seq<char>, i: int) -> bool {
    l.is_gdn && layers_name(spec, i as usize)
}

/// How many matrices of the first `n` layers are converted.
pub open spec fn converted_before(v: Seq<Layer>, spec: Seq<char>, scope: Seq<char>, n: int) -> nat
    decreases n,
{
    if n <= 0 {
        0
    } else {
        converted_before(v, spec, scope, n - 1) + (if is_named(v[n - 1], spec, n - 1) {
            converted_in(v[n - 1], scope)
        } else {
            0
        })
    }
}

/// The value of a setting, or what it is by default.
pub open spec fn text_or(v: Option<Seq<char>>, default: Seq<char>) -> Seq<char> {
    match v {
        Some(s) => s,
        None => default,
    }
}

/// What became of converting.
#[derive(Clone, Copy, Debug, PartialEq, Eq, Structural)]
pub enum QuantReport {
    /// It is switched off.
    Off,
    /// So many matrices were converted.
    Converted(usize),
    /// This matrix could not be, and what stands behind it was not tried.
    Failed { layer: usize, matrix: GdnMatrix },
}

/// Whether the first `n` layers have been converted, as far as they are named.
pub open spec fn layers_converted<F: Fn(&Vec<u8>, usize, usize) -> Option<Packed>>(
    form: Form,
    rule: Rule<F>,
    before: Seq<Layer>,
    after: Seq<Layer>,
    spec: Seq<char>,
    scope: Seq<char>,
    n: int,
) -> bool {
    forall|i: int|
        0 <= i < n ==> if is_named(before[i], spec, i) {
            layer_converted(form, rule, before[i], #[trigger] after[i], scope, 5)
        } else {
            after[i] == before[i]
        }
}

/// Whether a report tells what became of layers: all that are named have been converted, or
/// all up to the one that failed, and that one up to the matrix that failed.
pub open spec fn tells<F: Fn(&Vec<u8>, usize, usize) -> Option<Packed>>(
    r: QuantReport,
    form: Form,
    rule: Rule<F>,
    before: Seq<Layer>,
    after: Seq<Layer>,
    spec: Seq<char>,
    scope: Seq<char>,
) -> bool {
    &&& after.len() == before.len()
    &&& match r {
        QuantReport::Off => false,
        QuantReport::Converted(n) => {
            &&& n == converted_before(before, spec, scope, before.len() as int)
            &&& layers_converted(form, rule, before, after, spec, scope, before.len() as int)
        },
        QuantReport::Failed { layer, matrix } => {
            let l = layer as int;
            &&& l < before.len() && is_named(before[l], spec, l)
            &&& layers_converted(form, rule, before, after, spec, scope, l)
            &&& scope_names(scope, matrix.title())
            &&& refused(form, rule, matrix.of(before[l]))
            &&& layer_converted(form, rule, before[l], after[l], scope, matrix.place())
            &&& forall|i: int| l < i < before.len() ==> #[trigger] after[i] == before[i]
        },
    }
}

/// Converts the matrices that a scope names of the layers that are named.
fn convert_layers<F: Fn(&Vec<u8>, usize, usize) -> Option<Packed>>(
    layers: &mut Vec<Layer>,
    spec: &str,
    scope: &str,
    form: Form,
    rule: &Rule<F>,
) -> (r: QuantReport)
    requires
        old(layers)@.len() <= usize::MAX / 5,
        rule.callable(),
        form.supported(),
    ensures
        tells(r, form, *rule, old(layers)@, final(layers)@, spec@, scope@),
{
    let ghost start = layers@;
    let mut count: usize = 0;
    let mut i: usize = 0;
    while i < layers.len()
        invariant
            rule.callable(),
            form.supported(),
            start == old(layers)@,
            start.len() <= usize::MAX / 5,
            layers@.len() == start.len(),
            i <= start.len(),
            count == converted_before(start, spec@, scope@, i as int),
            count <= 5 * i,
            layers_converted(form, *rule, start, layers@, spec@, scope@, i as int),
            forall|k: int| i <= k < start.len() ==> #[trigger] layers@[k] == start[k],
        decreases layers.len() - i,
    {
        let ghost before = layers@;
        assert(layers@[i as int] == start[i as int]);
        if layers[i].is_gdn && layer_selected(spec, i) {
            let done: Result<usize, GdnMatrix> = convert_layer(&mut layers[i], scope, form, rule);
            assert(forall|k: int| 0 <= k < start.len() && k != i ==> layers@[k] == before[k]);
            match done {
                Ok(n) => {
                    count = count + n;
                },
                Err(matrix) => {
                    return QuantReport::Failed { layer: i, matrix };
                },
            }
        }
        i = i + 1;
    }
    QuantReport::Converted(count)
}

/// Turns the linear-attention weights into four-bit codes, where that is switched on: the
/// matrices of the layers that the settings name, all of them by default, each in as many layers
/// of codes as they ask for. `other` makes one layer of codes where scales are not chosen by the
/// largest weights: where they are chosen by what they leave, or where a limit on them is set.
pub fn quantize_gdn_runtime_mxfp4<F: Fn(&Vec<u8>, usize, usize) -> Option<Packed>>(
    layers: &mut Vec<Layer>,
    settings: &Settings,
    other: Option<&F>,
) -> (r: QuantReport)
    requires
        old(layers)@.len() <= usize::MAX / 5,
        other matches Some(f) ==> forall|w: &Vec<u8>, o: usize, i: usize|
            call_requires(*f, (w, o, i)),
        switch_enabled(settings.value("QWEN_GDN_RUNTIME_MXFP4_MSE"@), false) ==> other is Some,
        other is Some ==> switch_enabled(settings.value("QWEN_GDN_RUNTIME_MXFP4_MSE"@), false)
            || settings.value("QWEN_GDN_RUNTIME_MXFP4_CLIP_RMS"@) is Some,
    ensures
        if switch_enabled(settings.value("QWEN_GDN_RUNTIME_MXFP4"@), false) {
            tells(
                r,
                Form::Codes,
                match other {
                    Some(f) => Rule::Layers(settings, f),
                    None => Rule::Largest(settings),
                },
                old(layers)@,
                final(layers)@,
                text_or(settings.value("QWEN_GDN_RUNTIME_MXFP4_LAYERS"@), "all"@),
                text_or(settings.value("QWEN_GDN_RUNTIME_MXFP4_SCOPE"@), "all"@),
            )
        } else {
            r is Off && final(layers)@ == old(layers)@
        },
{
    if !settings.enabled("QWEN_GDN_RUNTIME_MXFP4", false) {
        return QuantReport::Off;
    }
    let scope: &str = settings.text("QWEN_GDN_RUNTIME_MXFP4_SCOPE", "all");
    let spec: &str = settings.text("QWEN_GDN_RUNTIME_MXFP4_LAYERS", "all");
    let rule: Rule<F> = match other {
        Some(f) => Rule::Layers(settings, f),
        None => Rule::Largest(settings),
    };
    convert_layers(layers, spec, scope, Form::Codes, &rule)
}

/// Turns the linear-attention weights into blocks of signed bytes, where that is switched on
/// and the blocks are supported: the matrices of the layers that the settings name, all of
/// them by default. `pack` makes the blocks.
pub fn quantize_gdn_runtime_q8<F: Fn(&Vec<u8>, usize, usize) -> Option<Packed>>(
    layers: &mut Vec<Layer>,
    settings: &Settings,
    pack: &F,
) -> (r: Result<QuantReport, Q8Choice>)
    requires
        old(layers)@.len() <= usize::MAX / 5,
        forall|w: &Vec<u8>, o: usize, i: usize| call_requires(*pack, (w, o, i)),
    ensures
        match q8_choice_spec(*settings) {
            Q8Choice::Off => r == Ok::<QuantReport, Q8Choice>(QuantReport::Off)
                && final(layers)@ == old(layers)@,
            Q8Choice::Blocks { block, residuals } => r matches Ok(report) && tells(
                report,
                Form::Blocks { block, residuals },
                Rule::Once(pack),
                old(layers)@,
                final(layers)@,
                text_or(settings.value("QWEN_GDN_RUNTIME_Q8_LAYERS"@), "all"@),
                text_or(settings.value("QWEN_GDN_RUNTIME_Q8_SCOPE"@), "all"@),
            ),
            bad => r == Err::<QuantReport, Q8Choice>(bad) && final(layers)@ == old(layers)@,
        },
{
    match q8_choice(settings) {
        Q8Choice::Off => Ok(QuantReport::Off),
        Q8Choice::Blocks { block, residuals } => {
            let scope: &str = settings.text("QWEN_GDN_RUNTIME_Q8_SCOPE", "all");
            let spec: &str = settings.text("QWEN_GDN_RUNTIME_Q8_LAYERS", "all");
            let rule: Rule<F> = Rule::Once(pack);
            Ok(convert_layers(layers, spec, scope, Form::Blocks { block, residuals }, &rule))
        },
        bad => Err(bad),
    }
}

/// What has been converted is not converted again, and asking for it again is not refused.
pub proof fn law_converting_again_changes_nothing<F: Fn(&Vec<u8>, usize, usize) -> Option<Packed>>(
    form: Form,
    rule: Rule<F>,
    before: Layer,
    after: Layer,
    scope: Seq<char>,
    m: GdnMatrix,
)
    requires
        layer_converted(form, rule, before, after, scope, 5),
        scope_names(scope, m.title()),
    ensures
        converted_in(after, scope) == 0,
        !refused(form, rule, m.of(after)),
        converted(form, rule, m.of(after), m.of(after)),
{
}

/// How the scale of a group of codes is chosen, in words for a report.
pub open spec fn scale_policy_text(s: Settings) -> Seq<char> {
    if switch_enabled(s.value("QWEN_GDN_RUNTIME_MXFP4_RESIDUAL3"@), false) {
        "mx4+2xmx4res"@
    } else if switch_enabled(s.value("QWEN_GDN_RUNTIME_MXFP4_RESIDUAL2"@), false) {
        "mx4+mx4res"@
    } else if switch_enabled(s.value("QWEN_GDN_RUNTIME_MXFP4_MSE"@), false) {
        "mse:r"@ + text_or(s.value("QWEN_GDN_RUNTIME_MXFP4_MSE_RADIUS"@), "3"@)
    } else {
        match s.value("QWEN_GDN_RUNTIME_MXFP4_CLIP_RMS"@) {
            Some(v) => "rms-clip:"@ + v,
            None => "max"@,
        }
    }
}

/// How the scale of a group of codes is chosen, in words for a report.
pub fn scale_policy(settings: &Settings) -> (r: String)
    ensures
        r@ == scale_policy_text(*settings),
{
    if settings.enabled("QWEN_GDN_RUNTIME_MXFP4_RESIDUAL3", false) {
        return String::from_str("mx4+2xmx4res");
    }
    if settings.enabled("QWEN_GDN_RUNTIME_MXFP4_RESIDUAL2", false) {
        return String::from_str("mx4+mx4res");
    }
    if settings.enabled("QWEN_GDN_RUNTIME_MXFP4_MSE", false) {
        let mut s: String = String::from_str("mse:r");
        s.append(settings.text("QWEN_GDN_RUNTIME_MXFP4_MSE_RADIUS", "3"));
        return s;
    }
    match settings.get("QWEN_GDN_RUNTIME_MXFP4_CLIP_RMS") {
        Some(v) => {
            let mut s: String = String::from_str("rms-clip:");
            s.append(v);
            s
        },
        None => String::from_str("max"),
    }
}

/// How linear-attention weights are to be turned into signed bytes.
#[derive(Clone, Copy, Debug, PartialEq, Eq, Structural)]
pub enum Q8Choice {
    Off,
    /// No such block is supported.
    BadBlock(usize),
    /// A correction is only supported one to a block of thirty-two.
    BadResiduals,
    Blocks { block: usize, residuals: usize },
}

/// How linear-attention weights are to be turned into signed bytes.
pub open spec fn q8_choice_spec(s: Settings) -> Q8Choice {
    let block = crate::settings::number_or(s.value("QWEN_GDN_RUNTIME_Q8_BLOCK"@), 32);
    let residuals = crate::settings::number_or(s.value("QWEN_GDN_RUNTIME_Q8_RESIDUALS"@), 0);
    if !switch_enabled(s.value("QWEN_GDN_RUNTIME_Q8"@), false) {
        Q8Choice::Off
    } else if !(block == 8 || block == 16 || block == 32) {
        Q8Choice::BadBlock(block)
    } else if residuals > 1 || (residuals == 1 && block != 32) {
        Q8Choice::BadResiduals
    } else {
        Q8Choice::Blocks { block, residuals }
    }
}

/// How linear-attention weights are to be turned into signed bytes.
pub fn q8_choice(settings: &Settings) -> (r: Q8Choice)
    ensures
        r == q8_choice_spec(*settings),
{
    if !settings.enabled("QWEN_GDN_RUNTIME_Q8", false) {
        return Q8Choice::Off;
    }
    let block: usize = settings.number("QWEN_GDN_RUNTIME_Q8_BLOCK", 32);
    if !(block == 8 || block == 16 || block == 32) {
        return Q8Choice::BadBlock(block);
    }
    let residuals: usize = settings.number("QWEN_GDN_RUNTIME_Q8_RESIDUALS", 0);
    if residuals > 1 || (residuals == 1 && block != 32) {
        return Q8Choice::BadResiduals;
    }
    Q8Choice::Blocks { block, residuals }
}

/// What a channel remembers: its last samples, oldest first.
pub open spec fn channel<T>(state: Seq<T>, history: int, ch: int) -> Seq<T> {
    state.subrange(ch * history, ch * history + history)
}

/// The convolution of a channel sees what it remembers, oldest first, and the current sample behind it;
/// and once the current sample is taken in, the oldest is forgotten and the current one remembered
/// last. No channel sees anything of another.
pub proof fn law_the_last_samples_are_seen_oldest_first<T>(
    current: Seq<T>,
    state: Seq<T>,
    history: int,
    ch: int,
)
    requires
        history >= 1,
        state.len() == current.len() * history,
        0 <= ch < current.len(),
    ensures
        window(current, state, history, ch) == channel(state, history, ch).push(current[ch]),
        shifted(current, state, history).len() == state.len(),
        channel(shifted(current, state, history), history, ch) == channel(state, history, ch).skip(
            1,
        ).push(current[ch]),
{
    let next = shifted(current, state, history);
    lemma_cell(current.len(), history as nat, ch, 0);
    assert(window(current, state, history, ch) =~= channel(state, history, ch).push(current[ch]));
    assert forall|j: int| 0 <= j < history implies #[trigger] channel(next, history, ch)[j]
        == channel(state, history, ch).skip(1).push(current[ch])[j] by {
        lemma_cell(current.len(), history as nat, ch, j);
    }
    assert(channel(next, history, ch) =~= channel(state, history, ch).skip(1).push(current[ch]));
}

/// The state of a layer is stepped in one place only: where it recurs on the host, or where the device
/// reports a whole step as done. Before, there is an input and it is convolved; behind, what was read
/// out is projected.
pub proof fn law_a_step_goes_through_its_parts_in_order(run: GdnRun, reply: GdnReply)
    requires
        run.wf(),
    ensures
        ({
            let next = run.after(reply);
            let whole = run.stage is FullDevice || run.stage is DeviceFinish
                || run.stage is DeviceToken;
            &&& next.updated <==> run.updated || run.stage is Recur || (whole && reply is Done)
            &&& whole && reply is Done ==> next.stage is Done
            &&& next.stage is Broken <==> run.stage is Broken || (whole && reply is Failed)
            &&& next.stage is Done && !(run.stage is Done) ==> (whole && reply is Done) || (
            run.stage is DeviceOutput && reply is Done) || run.stage is HostOutput
            &&& next.stage is DeviceOutput || next.stage is HostOutput ==> run.stage is Recur || (
            run.stage is DeviceOutput && !(reply is Done))
            &&& next.stage is Recur ==> run.stage is HostConv || (run.stage is NeuralConv
                && reply is Done)
            &&& next.stage is HostConv ==> run.stage is HostInput || (reply is Done && (
            run.stage is DeviceInput || run.stage is FusedInput)) || (run.stage is NeuralConv && !(
            reply is Done))
            &&& next.stage is NeuralConv ==> run.stage is NeuralInput && reply is Done
            &&& run.stage is NeuralInput && !(reply is Done) ==> (next.stage is DeviceInput
                <==> run.device_projects) && (next.stage is HostInput <==> !run.device_projects)
            &&& (run.stage is DeviceInput || run.stage is FusedInput) && !(reply is Done)
                ==> next.stage is HostInput
            &&& run.stage is Recur ==> (next.stage is DeviceOutput <==> run.device_weights
                && run.device_projects)
            &&& run.stage is DeviceOutput && !(reply is Done) ==> next.stage is HostOutput
            &&& run.stage is DeviceBegin && reply is Done ==> next.stage is Prefetch
            &&& run.stage is Prefetch ==> next.stage is DeviceFinish
        }),
{
}

/// Where a step begins: with the whole of it on the device from codes, with the whole of it on the
/// device from brain floats, or with its input; the neural engine is never passed over for the device.
pub proof fn law_where_a_step_begins(s: Settings, neural: bool, device: Option<bool>)
    ensures
        ({
            let run = GdnRun::begun(s, neural, device);
            let full = switch_on(s.value("QWEN_GDN_MXFP4_FULL"@), false) && !neural && device == Some(
                false,
            );
            let step = !full && !neural && device == Some(true) && switch_on(
                s.value("QWEN_GDN_METAL"@),
                false,
            );
            let overlap = switch_on(s.value("QWEN_GDN_PREFETCH_OVERLAP"@), false);
            let projects = switch_on(s.value("QWEN_GDN_BF16_METAL"@), false);
            let fused = switch_on(s.value("QWEN_GDN_FUSED_INPUT"@), true);
            &&& run.stage is FullDevice <==> full
            &&& run.stage is DeviceBegin <==> step && overlap
            &&& run.stage is DeviceToken <==> step && !overlap
            &&& run.stage is NeuralInput <==> !full && neural && device == Some(true)
            &&& run.stage is DeviceInput <==> !full && !step && !neural && device == Some(true)
                && projects
            &&& run.stage is FusedInput <==> !full && device != Some(true) && fused
            &&& run.stage is HostInput <==> !full && !step && ((device == Some(true) && !neural
                && !projects) || (device != Some(true) && !fused))
        }),
{
}

/// The four projections of a chunk are made in the order of their matrices, each once, and the rows
/// come behind the last; a chunk that is not batched or whose weights the device does not hold is
/// declined at once.
pub proof fn law_a_chunk_is_projected_matrix_by_matrix(batched: bool, device: Option<bool>, ok: bool)
    ensures
        chunk_begun(batched, device) is Declined <==> !batched || device != Some(true),
        batched && device == Some(true) ==> chunk_begun(batched, device) == ChunkStage::Project(
            GdnMatrix::Qkv,
        ),
        chunk_after(ChunkStage::Project(GdnMatrix::Qkv), true) == ChunkStage::Project(GdnMatrix::Z),
        chunk_after(ChunkStage::Project(GdnMatrix::Z), true) == ChunkStage::Project(GdnMatrix::A),
        chunk_after(ChunkStage::Project(GdnMatrix::A), true) == ChunkStage::Project(GdnMatrix::B),
        chunk_after(ChunkStage::Project(GdnMatrix::B), true) is Rows,
        forall|m: GdnMatrix| #[trigger]
            chunk_after(ChunkStage::Project(m), false) is Declined,
        chunk_after(ChunkStage::Output, ok) is Done <==> ok,
        chunk_after(ChunkStage::Output, ok) is HostOutput <==> !ok,
{
}

/// Only what the settings name is converted: a matrix that they name, of a layer of linear attention
/// that they name, is of the form asked for afterwards, with as many rows and columns; every other
/// matrix and every other layer is as it was.
pub proof fn law_only_named_matrices_are_converted<F: Fn(&Vec<u8>, usize, usize) -> Option<Packed>>(
    r: QuantReport,
    form: Form,
    rule: Rule<F>,
    before: Seq<Layer>,
    after: Seq<Layer>,
    spec: Seq<char>,
    scope: Seq<char>,
    i: int,
    m: GdnMatrix,
)
    requires
        tells(r, form, rule, before, after, spec, scope),
        0 <= i < before.len(),
    ensures
        !before[i].is_gdn || !layers_name(spec, i as usize) ==> after[i] == before[i],
        !scope_names(scope, m.title()) ==> m.of(after[i]) == m.of(before[i]),
        r is Converted && before[i].is_gdn && layers_name(spec, i as usize) && scope_names(
            scope,
            m.title(),
        ) ==> {
            &&& m.of(after[i]).o == m.of(before[i]).o
            &&& m.of(after[i]).i == m.of(before[i]).i
            &&& m.of(after[i]).bytes is Some
            &&& form is Codes ==> m.of(after[i]).bytes->0 is Mxfp4
            &&& form is Blocks ==> m.of(after[i]).bytes->0 is Q8Block
        },
        after[i].is_gdn == before[i].is_gdn && after[i].attn_q == before[i].attn_q && after[i].router
            == before[i].router && after[i].gdn_conv1d == before[i].gdn_conv1d,
{
    if is_named(before[i], spec, i) {
        match r {
            QuantReport::Converted(n) => {
                assert(layer_converted(form, rule, before[i], after[i], scope, 5));
            },
            QuantReport::Failed { layer, matrix } => {
                if i < layer {
                    assert(layer_converted(form, rule, before[i], after[i], scope, 5));
                }
            },
            _ => {},
        }
    }
}

/// Which blocks of bytes are chosen: none unless that is switched on, of thirty-two weights unless eight or
/// sixteen are asked for, and with residuals only for thirty-two.
pub proof fn law_which_blocks_of_bytes_are_chosen(s: Settings)
    ensures
        q8_choice_spec(s) is Off <==> !switch_enabled(s.value("QWEN_GDN_RUNTIME_Q8"@), false),
        q8_choice_spec(s) matches Q8Choice::Blocks { block, residuals } ==> {
            &&& block == 8 || block == 16 || block == 32
            &&& residuals == 0 || residuals == 1 && block == 32
            &&& s.value("QWEN_GDN_RUNTIME_Q8_BLOCK"@) is None ==> block == 32
            &&& s.value("QWEN_GDN_RUNTIME_Q8_RESIDUALS"@) is None ==> residuals == 0
        },
        s.value("QWEN_GDN_RUNTIME_Q8_BLOCK"@) is None && s.value("QWEN_GDN_RUNTIME_Q8_RESIDUALS"@) is None
            && switch_enabled(s.value("QWEN_GDN_RUNTIME_Q8"@), false) ==> q8_choice_spec(s) is Blocks,
{
}

/// Residuals go with blocks of thirty-two alone.
pub proof fn law_residuals_go_with_large_blocks(block: usize, residuals: usize)
    ensures
        residuals != 1 ==> (Form::Blocks { block, residuals }).supported(),
        residuals == 1 ==> ((Form::Blocks { block, residuals }).supported() <==> block == 32),
        Form::Codes.supported(),
{
}

} // verus!
