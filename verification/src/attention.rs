//! Full attention: how its projections are laid out, where keys and values are
//! kept, and which elements of a head turn together.

use vstd::prelude::*;

use crate::config::Cfg;
use crate::gdn::{all_wide, brain_bytes, check_wide, is_brain, GdnReply};
use crate::model::Layer;
use crate::mxfp4::lemma_cell;
use crate::settings::{switch_on, Settings};
use crate::weights::Wt;

verus! {

/// The rows of the projections of a token.
#[derive(Clone, Copy, Debug, PartialEq, Eq, Structural)]
pub struct AttnRows {
    /// Queries and their gates.
    pub q: usize,
    /// Keys, and as many values.
    pub kv: usize,
    /// Those of the index.
    pub index: usize,
}

impl AttnRows {
    /// The rows without those of the index.
    pub open spec fn base(self) -> int {
        self.q + 2 * self.kv
    }
}

/// All row counts can be counted.
pub open spec fn rows_fit(c: Cfg) -> bool {
    &&& 2 * c.heads <= usize::MAX
    &&& 2 * c.heads * c.head_dim <= usize::MAX
    &&& c.kv_heads * c.head_dim <= usize::MAX
    &&& 2 * c.heads * c.head_dim + 2 * (c.kv_heads * c.head_dim) <= usize::MAX
    &&& c.idx_n_heads + c.idx_kv_heads <= usize::MAX
    &&& (c.idx_n_heads + c.idx_kv_heads) * c.idx_head_dim <= usize::MAX
    &&& 2 * c.heads * c.head_dim + 2 * (c.kv_heads * c.head_dim) + (c.idx_n_heads + c.idx_kv_heads)
        * c.idx_head_dim <= usize::MAX
}

/// Tests whether all row counts can be counted.
pub fn check_rows(c: &Cfg) -> (r: bool)
    ensures
        r == rows_fit(*c),
{
    let heads: usize = match c.heads.checked_mul(2) {
        Some(n) => n,
        None => {
            return false;
        },
    };
    let q: usize = match heads.checked_mul(c.head_dim) {
        Some(n) => n,
        None => {
            return false;
        },
    };
    let kv: usize = match c.kv_heads.checked_mul(c.head_dim) {
        Some(n) => n,
        None => {
            return false;
        },
    };
    let both: usize = match kv.checked_mul(2) {
        Some(n) => n,
        None => {
            return false;
        },
    };
    let base: usize = match q.checked_add(both) {
        Some(n) => n,
        None => {
            return false;
        },
    };
    match c.idx_n_heads.checked_add(c.idx_kv_heads) {
        Some(n) => match n.checked_mul(c.idx_head_dim) {
            Some(index) => base.checked_add(index).is_some(),
            None => false,
        },
        None => false,
    }
}

/// The rows of the projections of a token, with those of the index where the layer
/// has one and they are asked for.
pub fn attention_rows(c: &Cfg, index: bool, qsa: bool) -> (r: AttnRows)
    requires
        rows_fit(*c),
    ensures
        r.q == 2 * c.heads * c.head_dim,
        r.kv == c.kv_heads * c.head_dim,
        r.index == (if index && qsa {
            (c.idx_n_heads + c.idx_kv_heads) * c.idx_head_dim
        } else {
            0
        }),
{
    AttnRows {
        q: 2 * c.heads * c.head_dim,
        kv: c.kv_heads * c.head_dim,
        index: if index && qsa {
            (c.idx_n_heads + c.idx_kv_heads) * c.idx_head_dim
        } else {
            0
        },
    }
}

/// The projections of a token.
#[derive(Debug)]
pub struct AttnProjection<T> {
    pub qg: Vec<T>,
    pub k: Vec<T>,
    pub v: Vec<T>,
    pub index_qk: Option<Vec<T>>,
    /// Whether the device made them.
    pub metal_ok: bool,
}

/// Part of a list.
fn part<T: Copy>(all: &Vec<T>, from: usize, to: usize) -> (r: Vec<T>)
    requires
        from <= to <= all@.len(),
    ensures
        r@ == all@.subrange(from as int, to as int),
{
    let mut r: Vec<T> = Vec::new();
    let mut i: usize = from;
    while i < to
        invariant
            from <= i <= to <= all@.len(),
            r@ == all@.subrange(from as int, i as int),
        decreases to - i,
    {
        r.push(all[i]);
        i = i + 1;
        assert(r@ =~= all@.subrange(from as int, i as int));
    }
    r
}

/// Cuts what the device projected in one go: queries with their gates, keys, values,
/// and the index where its rows were among them.
pub fn split_projection<T: Copy>(all: &Vec<T>, rows: AttnRows, index: usize) -> (r: AttnProjection<T>)
    requires
        rows.base() + index == all@.len(),
    ensures
        r.qg@ == all@.subrange(0, rows.q as int),
        r.k@ == all@.subrange(rows.q as int, rows.q + rows.kv),
        r.v@ == all@.subrange(rows.q + rows.kv, rows.base()),
        r.index_qk is Some <==> index > 0,
        r.index_qk matches Some(x) ==> x@ == all@.skip(rows.base()),
        r.metal_ok,
        r.qg@.len() == rows.q && r.k@.len() == rows.kv && r.v@.len() == rows.kv,
        all@ == r.qg@ + r.k@ + r.v@ + (match r.index_qk {
            Some(x) => x@,
            None => Seq::empty(),
        }),
{
    assert(all.len() == all@.len());
    let base: usize = rows.q + 2 * rows.kv;
    let qg: Vec<T> = part(all, 0, rows.q);
    let k: Vec<T> = part(all, rows.q, rows.q + rows.kv);
    let v: Vec<T> = part(all, rows.q + rows.kv, base);
    let index_qk: Option<Vec<T>> = if index > 0 {
        let x: Vec<T> = part(all, base, all.len());
        assert(x@ =~= all@.skip(rows.base()));
        Some(x)
    } else {
        None
    };
    assert(all@ =~= qg@ + k@ + v@ + (match index_qk {
        Some(x) => x@,
        None => Seq::empty(),
    }));
    AttnProjection { qg, k, v, index_qk, metal_ok: true }
}

/// Row `row` of a matrix of outputs.
pub open spec fn row_of<T>(all: Seq<T>, width: int, row: int) -> Seq<T> {
    all.subrange(row * width, row * width + width)
}

/// Whether the rows of a chunk can be projected together: there are several, all are as wide
/// as the model, the layer is not one of linear attention, every matrix that is read is held
/// as bfloat16, and it is not switched off.
pub fn chunk_projects_together<T>(
    settings: &Settings,
    l: &Layer,
    hidden: usize,
    index: usize,
    xs: &Vec<Vec<T>>,
) -> (r: bool)
    ensures
        r == (xs@.len() > 1 && !l.is_gdn && switch_on(
            settings.value("QWEN_PREFILL_ATTN_BATCH"@),
            true,
        ) && is_brain(l.attn_q) && is_brain(l.attn_k) && is_brain(l.attn_v) && all_wide(
            xs@,
            hidden as int,
        ) && (index > 0 ==> is_brain(l.index_qk))),
{
    if xs.len() <= 1 || l.is_gdn || !settings.on("QWEN_PREFILL_ATTN_BATCH", true) {
        return false;
    }
    if l.attn_q.bf16_bytes().is_none() || l.attn_k.bf16_bytes().is_none()
        || l.attn_v.bf16_bytes().is_none() {
        return false;
    }
    check_wide(xs, hidden) && (index == 0 || l.index_qk.bf16_bytes().is_some())
}

/// Cuts what was projected for all rows of a chunk into the projections of each.
pub fn split_chunk<T: Copy>(
    q: &Vec<T>,
    k: &Vec<T>,
    v: &Vec<T>,
    index: Option<&Vec<T>>,
    tokens: usize,
    rows: AttnRows,
) -> (r: Vec<AttnProjection<T>>)
    requires
        q@.len() == tokens * rows.q,
        k@.len() == tokens * rows.kv,
        v@.len() == tokens * rows.kv,
        index matches Some(x) ==> x@.len() == tokens * rows.index,
    ensures
        r@.len() == tokens,
        forall|t: int|
            0 <= t < tokens ==> {
                let p = #[trigger] r@[t];
                &&& p.qg@ == row_of(q@, rows.q as int, t)
                &&& p.k@ == row_of(k@, rows.kv as int, t)
                &&& p.v@ == row_of(v@, rows.kv as int, t)
                &&& !p.metal_ok
                &&& p.index_qk is Some <==> index is Some
                &&& p.index_qk matches Some(x) ==> x@ == row_of(index->0@, rows.index as int, t)
            },
{
    let mut r: Vec<AttnProjection<T>> = Vec::new();
    let mut t: usize = 0;
    while t < tokens
        invariant
            q@.len() == tokens * rows.q,
            k@.len() == tokens * rows.kv,
            v@.len() == tokens * rows.kv,
            index matches Some(x) ==> x@.len() == tokens * rows.index,
            t <= tokens,
            r@.len() == t,
            forall|u: int|
                0 <= u < t ==> {
                    let p = #[trigger] r@[u];
                    &&& p.qg@ == row_of(q@, rows.q as int, u)
                    &&& p.k@ == row_of(k@, rows.kv as int, u)
                    &&& p.v@ == row_of(v@, rows.kv as int, u)
                    &&& !p.metal_ok
                    &&& p.index_qk is Some <==> index is Some
                    &&& p.index_qk matches Some(x) ==> x@ == row_of(
                        index->0@,
                        rows.index as int,
                        u,
                    )
                },
        decreases tokens - t,
    {
        proof {
            lemma_row(tokens as int, rows.q as int, t as int);
            lemma_row(tokens as int, rows.kv as int, t as int);
            lemma_row(tokens as int, rows.index as int, t as int);
            assert(q.len() == q@.len() && k.len() == k@.len() && v.len() == v@.len());
        }
        let qg: Vec<T> = part(q, t * rows.q, t * rows.q + rows.q);
        let kk: Vec<T> = part(k, t * rows.kv, t * rows.kv + rows.kv);
        let vv: Vec<T> = part(v, t * rows.kv, t * rows.kv + rows.kv);
        let index_qk: Option<Vec<T>> = match index {
            Some(x) => {
                assert(x.len() == x@.len());
                Some(part(x, t * rows.index, t * rows.index + rows.index))
            },
            None => None,
        };
        r.push(AttnProjection { qg, k: kk, v: vv, index_qk, metal_ok: false });
        t = t + 1;
    }
    r
}

/// A row lies within its matrix.
proof fn lemma_row(rows: int, width: int, row: int)
    requires
        0 <= row < rows,
        0 <= width,
    ensures
        0 <= row * width,
        row * width + width <= rows * width,
{
    assert(0 <= row * width && row * width + width <= rows * width) by (nonlinear_arith)
        requires
            0 <= row,
            row + 1 <= rows,
            0 <= width,
    ;
}

/// The weights of a layer of full attention for the device: queries, keys, values
/// and index one behind the other, and the output.
pub struct AttnDeviceWeights {
    pub qkv: Vec<u8>,
    pub qkv_rows: usize,
    pub o: Vec<u8>,
}

/// The bytes of the matrices one behind the other.
pub open spec fn joined_bytes(l: Layer) -> Seq<u8> {
    brain_bytes(l.attn_q) + brain_bytes(l.attn_k) + brain_bytes(l.attn_v) + (if l.is_qsa {
        brain_bytes(l.index_qk)
    } else {
        Seq::empty()
    })
}

/// Appends the bfloat16 bytes of a matrix.
fn append_brain(out: &mut Vec<u8>, w: &Wt)
    ensures
        final(out)@ == old(out)@ + brain_bytes(*w),
{
    let ghost start = out@;
    match w.bf16_bytes() {
        Some(b) => {
            let mut i: usize = 0;
            while i < b.len()
                invariant
                    i <= b.len(),
                    b@ == brain_bytes(*w),
                    out@ == start + b@.take(i as int),
                decreases b.len() - i,
            {
                out.push(b[i]);
                i = i + 1;
                assert(out@ =~= start + b@.take(i as int));
            }
            assert(b@.take(b@.len() as int) =~= b@);
        },
        None => {
            assert(out@ =~= start + brain_bytes(*w));
        },
    }
}

/// Puts the weights of a layer together for the device: those of a layer of full
/// attention whose matrices are bfloat16, none of them empty, and whole rows.
pub fn attention_device_weights(l: &Layer, c: &Cfg) -> (r: Option<AttnDeviceWeights>)
    requires
        c.hidden > 0,
    ensures
        r is Some <==> {
            &&& !l.is_gdn
            &&& is_brain(l.attn_o) && is_brain(l.attn_q) && is_brain(l.attn_k) && is_brain(l.attn_v)
            &&& brain_bytes(l.attn_o).len() > 0
            &&& joined_bytes(*l).len() > 0
            &&& 2 * c.hidden <= usize::MAX
            &&& joined_bytes(*l).len() as int % (2 * c.hidden) == 0
        },
        r matches Some(d) ==> {
            &&& d.qkv@ == joined_bytes(*l)
            &&& d.qkv_rows == joined_bytes(*l).len() as int / (2 * c.hidden)
            &&& d.o@ == brain_bytes(l.attn_o)
        },
{
    if l.is_gdn || l.attn_o.bf16_bytes().is_none() || l.attn_q.bf16_bytes().is_none()
        || l.attn_k.bf16_bytes().is_none() || l.attn_v.bf16_bytes().is_none() {
        return None;
    }
    let mut o: Vec<u8> = Vec::new();
    append_brain(&mut o, &l.attn_o);
    assert(o@ =~= brain_bytes(l.attn_o));
    let mut qkv: Vec<u8> = Vec::new();
    append_brain(&mut qkv, &l.attn_q);
    append_brain(&mut qkv, &l.attn_k);
    append_brain(&mut qkv, &l.attn_v);
    if l.is_qsa {
        append_brain(&mut qkv, &l.index_qk);
    }
    assert(qkv@ =~= joined_bytes(*l));
    assert(qkv.len() == qkv@.len() && o.len() == o@.len());
    match c.hidden.checked_mul(2) {
        None => None,
        Some(row) => {
            if o.len() == 0 || qkv.len() == 0 || qkv.len() % row != 0 {
                return None;
            }
            let qkv_rows: usize = qkv.len() / row;
            Some(AttnDeviceWeights { qkv, qkv_rows, o })
        },
    }
}

/// The rows of the index that the device projects with the others: all of them where
/// its weights hold them, else none.
pub fn fused_index_rows(rows: AttnRows, held: usize) -> (r: usize)
    requires
        rows.base() + rows.index <= usize::MAX,
    ensures
        r == (if rows.index > 0 && held >= rows.base() + rows.index {
            rows.index
        } else {
            0
        }),
{
    if rows.index > 0 && held >= rows.q + 2 * rows.kv + rows.index {
        rows.index
    } else {
        0
    }
}

/// How the host projects: with the index in the same call, without it, or matrix by
/// matrix.
#[derive(Clone, Copy, Debug, PartialEq, Eq, Structural)]
pub struct HostProjection {
    pub fused: bool,
    pub fused_index: bool,
}

/// How the host projects.
pub fn host_projection(settings: &Settings, rows: AttnRows) -> (r: HostProjection)
    ensures
        r.fused == switch_on(settings.value("QWEN_ATTN_FUSED_INPUT"@), true),
        r.fused_index == (r.fused && rows.index > 0 && switch_on(
            settings.value("QWEN_QSA_FUSED_INPUT"@),
            false,
        )),
{
    let fused: bool = settings.on("QWEN_ATTN_FUSED_INPUT", true);
    HostProjection {
        fused,
        fused_index: fused && rows.index > 0 && settings.on("QWEN_QSA_FUSED_INPUT", false),
    }
}

/// Whether the weights of a layer are put together for the device before it is asked: where it is
/// switched on and there, and none of the layer are held yet.
pub fn builds_device_weights(settings: &Settings, held: bool, gdn: bool, available: bool) -> (r: bool)
    ensures
        r == (switch_on(settings.value("QWEN_ATTN_METAL"@), true) && !held && !gdn && available),
{
    settings.on("QWEN_ATTN_METAL", true) && !held && !gdn && available
}

/// What is to be done next to project a token for attention.
#[derive(Clone, Copy, Debug, PartialEq, Eq, Structural)]
pub enum AttnStage {
    /// Queries, keys and values on the device, in one call, and the index with them where the
    /// device holds it.
    Device,
    /// Queries, keys, values and index from codes, in one call.
    FusedWithIndex,
    /// Queries, keys and values from codes, in one call.
    Fused,
    /// Queries, keys and values matrix by matrix.
    Each,
    /// The index alone.
    Index,
    Done,
    /// The device failed with what it had taken on: there is no going back.
    Broken,
}

/// The projection of a token on its way.
#[derive(Clone, Copy, Debug, PartialEq, Eq, Structural)]
pub struct AttnRun {
    /// Whether the index is asked for.
    pub wants_index: bool,
    /// Whether the device projects the index with the rest.
    pub device_index: bool,
    /// How the host projects.
    pub host: HostProjection,
    pub stage: AttnStage,
    /// Whether queries, keys and values are there.
    pub projected: bool,
    /// Whether the index is there.
    pub index: bool,
    /// Whether the device has projected.
    pub metal_ok: bool,
}

impl AttnRun {
    /// Nothing is projected twice: a stage that projects is come to only while what it gives is
    /// missing, and the end only with all that was asked for.
    pub open spec fn wf(self) -> bool {
        &&& self.device_index ==> self.wants_index
        &&& self.host.fused_index ==> self.host.fused && self.wants_index
        &&& self.index ==> self.wants_index && self.projected
        &&& self.metal_ok ==> self.projected
        &&& match self.stage {
            AttnStage::Device => !self.projected,
            AttnStage::FusedWithIndex => !self.projected && self.host.fused_index,
            AttnStage::Fused => !self.projected && self.host.fused,
            AttnStage::Each => !self.projected,
            AttnStage::Index => self.projected && self.wants_index && !self.index,
            AttnStage::Done => self.projected && self.index == self.wants_index,
            AttnStage::Broken => !self.projected,
        }
    }

    /// What follows where the device does not project.
    pub open spec fn hosting(self) -> AttnRun {
        AttnRun {
            stage: if self.host.fused_index {
                AttnStage::FusedWithIndex
            } else if self.host.fused {
                AttnStage::Fused
            } else {
                AttnStage::Each
            },
            ..self
        }
    }

    /// What follows once queries, keys and values are there, and with them the index or not.
    pub open spec fn having(self, index: bool, metal_ok: bool) -> AttnRun {
        AttnRun {
            stage: if self.wants_index && !index {
                AttnStage::Index
            } else {
                AttnStage::Done
            },
            projected: true,
            index,
            metal_ok,
            ..self
        }
    }

    /// What follows a stage.
    pub open spec fn after(self, reply: GdnReply) -> AttnRun {
        match self.stage {
            AttnStage::Device => match reply {
                GdnReply::Done => self.having(self.device_index, true),
                GdnReply::Declined => self.hosting(),
                GdnReply::Failed => AttnRun { stage: AttnStage::Broken, ..self },
            },
            AttnStage::FusedWithIndex => if reply is Done {
                self.having(true, false)
            } else {
                AttnRun { stage: AttnStage::Fused, ..self }
            },
            AttnStage::Fused => if reply is Done {
                self.having(false, false)
            } else {
                AttnRun { stage: AttnStage::Each, ..self }
            },
            AttnStage::Each => self.having(false, false),
            AttnStage::Index => AttnRun { stage: AttnStage::Done, index: true, ..self },
            AttnStage::Done => self,
            AttnStage::Broken => self,
        }
    }

    /// How many stages can still come.
    pub open spec fn left(self) -> nat {
        match self.stage {
            AttnStage::Device => 5,
            AttnStage::FusedWithIndex => 4,
            AttnStage::Fused => 3,
            AttnStage::Each => 2,
            AttnStage::Index => 1,
            AttnStage::Done => 0,
            AttnStage::Broken => 0,
        }
    }

    /// A projection that begins. `held` is how many rows of weights the device has of the layer.
    pub open spec fn begun(s: Settings, rows: AttnRows, wants_index: bool, held: Option<usize>) -> AttnRun {
        let fused = switch_on(s.value("QWEN_ATTN_FUSED_INPUT"@), true);
        let run = AttnRun {
            wants_index,
            device_index: held matches Some(h) && rows.index > 0 && h >= rows.base() + rows.index,
            host: HostProjection {
                fused,
                fused_index: fused && rows.index > 0 && switch_on(
                    s.value("QWEN_QSA_FUSED_INPUT"@),
                    false,
                ),
            },
            stage: AttnStage::Device,
            projected: false,
            index: false,
            metal_ok: false,
        };
        if switch_on(s.value("QWEN_ATTN_METAL"@), true) && held is Some {
            run
        } else {
            run.hosting()
        }
    }

    fn go_to_host(&mut self)
        ensures
            *final(self) == old(self).hosting(),
    {
        self.stage = if self.host.fused_index {
            AttnStage::FusedWithIndex
        } else if self.host.fused {
            AttnStage::Fused
        } else {
            AttnStage::Each
        };
    }

    fn take(&mut self, index: bool, metal_ok: bool)
        ensures
            *final(self) == old(self).having(index, metal_ok),
    {
        self.stage = if self.wants_index && !index {
            AttnStage::Index
        } else {
            AttnStage::Done
        };
        self.projected = true;
        self.index = index;
        self.metal_ok = metal_ok;
    }

    /// Begins to project a token. `held` is how many rows of weights the device has of the layer,
    /// where it has any; `wants_index` says whether the index of a sparse layer is asked for.
    pub fn start(settings: &Settings, rows: AttnRows, wants_index: bool, held: Option<usize>) -> (r:
        AttnRun)
        requires
            rows.base() + rows.index <= usize::MAX,
            rows.index > 0 ==> wants_index,
        ensures
            r == AttnRun::begun(*settings, rows, wants_index, held),
            r.wf(),
    {
        let device_index: bool = match held {
            Some(h) => fused_index_rows(rows, h) > 0,
            None => false,
        };
        let mut run = AttnRun {
            wants_index,
            device_index,
            host: host_projection(settings, rows),
            stage: AttnStage::Device,
            projected: false,
            index: false,
            metal_ok: false,
        };
        if !(settings.on("QWEN_ATTN_METAL", true) && held.is_some()) {
            run.go_to_host();
        }
        run
    }

    /// Goes on to the next stage.
    pub fn step(&mut self, reply: GdnReply)
        requires
            old(self).wf(),
        ensures
            *final(self) == old(self).after(reply),
            final(self).wf(),
    {
        let ok: bool = match reply {
            GdnReply::Done => true,
            _ => false,
        };
        match self.stage {
            AttnStage::Device => match reply {
                GdnReply::Done => {
                    let index: bool = self.device_index;
                    self.take(index, true);
                },
                GdnReply::Declined => {
                    self.go_to_host();
                },
                GdnReply::Failed => {
                    self.stage = AttnStage::Broken;
                },
            },
            AttnStage::FusedWithIndex => {
                if ok {
                    self.take(true, false);
                } else {
                    self.stage = AttnStage::Fused;
                }
            },
            AttnStage::Fused => {
                if ok {
                    self.take(false, false);
                } else {
                    self.stage = AttnStage::Each;
                }
            },
            AttnStage::Each => {
                self.take(false, false);
            },
            AttnStage::Index => {
                self.index = true;
                self.stage = AttnStage::Done;
            },
            AttnStage::Done => {},
            AttnStage::Broken => {},
        }
    }
}

/// Every projection ends: each stage leaves fewer to come.
pub proof fn law_every_projection_ends(run: AttnRun, reply: GdnReply)
    requires
        run.wf(),
        run.left() > 0,
    ensures
        run.after(reply).left() < run.left(),
        run.after(reply).wf(),
{
}

/// Nothing is projected twice and nothing is left out: queries, keys and values are missing until
/// the one stage that gives them, the index until the one that gives it, and a projection that is
/// done has them all, the index where it was asked for.
pub proof fn law_everything_is_projected_once(run: AttnRun, reply: GdnReply)
    requires
        run.wf(),
    ensures
        run.projected ==> run.after(reply).projected,
        run.index ==> run.after(reply).index,
        run.stage is Device || run.stage is FusedWithIndex || run.stage is Fused || run.stage is Each
            ==> !run.projected,
        run.stage is Index || run.stage is FusedWithIndex ==> !run.index,
        run.stage is Done ==> run.projected && run.index == run.wants_index,
{
}

/// Only a device that fails with what it has taken on breaks a projection, and then nothing
/// follows; one that declines is followed by the host.
pub proof fn law_only_a_failed_device_breaks_a_projection(run: AttnRun, reply: GdnReply)
    requires
        run.wf(),
        !(run.stage is Broken),
    ensures
        run.after(reply).stage is Broken <==> run.stage is Device && reply is Failed,
        run.after(reply).stage is Broken ==> forall|next: GdnReply| #[trigger]
            run.after(reply).after(next) == run.after(reply),
        run.stage is Device && reply is Declined ==> run.after(reply) == run.hosting(),
        run.after(reply).metal_ok <==> run.metal_ok || (run.stage is Device && reply is Done),
{
}

/// Who projects what attention gave back to the width of the streams.
#[derive(Clone, Copy, Debug, PartialEq, Eq, Structural)]
pub enum OutputBy {
    /// The host.
    Host,
    /// The device, which has done so.
    Device,
    /// Nobody: the device has projected before and holds no weights any more.
    Nobody,
    /// The device failed with what it had taken on: there is no going back.
    Broken,
}

/// Whether the device is asked to project what attention gave: where it has projected before and
/// holds the weights of the layer.
pub fn asks_device_for_output(metal_ok: bool, held: bool) -> (r: bool)
    ensures
        r == (metal_ok && held),
{
    metal_ok && held
}

/// Who projects what attention gave. The host does where the device has not projected before, and
/// where the device is asked and declines.
pub open spec fn output_by(metal_ok: bool, held: bool, reply: GdnReply) -> OutputBy {
    if !metal_ok {
        OutputBy::Host
    } else if !held {
        OutputBy::Nobody
    } else {
        match reply {
            GdnReply::Done => OutputBy::Device,
            GdnReply::Declined => OutputBy::Host,
            GdnReply::Failed => OutputBy::Broken,
        }
    }
}

/// Who projects what attention gave. `metal_ok` is whether the device has projected queries, keys
/// and values, `held` whether it holds weights of the layer, and `reply` what it answered where
/// [`asks_device_for_output`] says that it is asked; it counts nowhere else.
pub fn output_projection(metal_ok: bool, held: bool, reply: GdnReply) -> (r: OutputBy)
    ensures
        r == output_by(metal_ok, held, reply),
        r is Host <==> !metal_ok || (held && reply is Declined),
        r is Device <==> metal_ok && held && reply is Done,
        r is Broken <==> metal_ok && held && reply is Failed,
        r is Nobody <==> metal_ok && !held,
{
    if !metal_ok {
        OutputBy::Host
    } else if !held {
        OutputBy::Nobody
    } else {
        match reply {
            GdnReply::Done => OutputBy::Device,
            GdnReply::Declined => OutputBy::Host,
            GdnReply::Failed => OutputBy::Broken,
        }
    }
}

/// A projection after a number of stages.
pub open spec fn after_stages(run: AttnRun, replies: Seq<GdnReply>) -> AttnRun
    decreases replies.len(),
{
    if replies.len() == 0 {
        run
    } else {
        after_stages(run, replies.drop_last()).after(replies.last())
    }
}

/// What attention gave is projected, unless the device fails: whatever was answered on the way, the
/// device has projected queries, keys and values only where it holds weights of the layer, so that
/// either the device or the host projects in the end.
pub proof fn law_the_output_is_projected(
    s: Settings,
    rows: AttnRows,
    wants_index: bool,
    held: Option<usize>,
    replies: Seq<GdnReply>,
    reply: GdnReply,
)
    ensures
        ({
            let run = after_stages(AttnRun::begun(s, rows, wants_index, held), replies);
            let who = output_by(run.metal_ok, held is Some, reply);
            &&& run.metal_ok ==> held is Some
            &&& who is Device || who is Host || who is Broken
            &&& who is Broken <==> run.metal_ok && reply is Failed
            &&& who is Host <==> !run.metal_ok || reply is Declined
        }),
{
    let begun = AttnRun::begun(s, rows, wants_index, held);
    lemma_device_holds(begun, held is Some, replies);
}

proof fn lemma_device_holds(begun: AttnRun, held: bool, replies: Seq<GdnReply>)
    requires
        begun.metal_ok || begun.stage is Device ==> held,
    ensures
        ({
            let run = after_stages(begun, replies);
            run.metal_ok || run.stage is Device ==> held
        }),
    decreases replies.len(),
{
    if replies.len() > 0 {
        lemma_device_holds(begun, held, replies.drop_last());
    }
}

/// Whether the index is projected together with the attention of a sparse layer.
pub fn projects_index(settings: &Settings, available: bool) -> (r: bool)
    ensures
        r == (switch_on(settings.value("QWEN_QSA_INDEX_METAL"@), true) && switch_on(
            settings.value("QWEN_ATTN_METAL"@),
            true,
        ) && available),
{
    settings.on("QWEN_QSA_INDEX_METAL", true) && settings.on("QWEN_ATTN_METAL", true) && available
}

/// Where the keys of a head begin for a position.
pub open spec fn kv_base(g: int, max_t: int, width: int, pos: int) -> int {
    g * max_t * width + pos * width
}

/// The cache with the keys of a position put in.
pub open spec fn stored<T>(cache: Seq<T>, k: Seq<T>, max_t: int, width: int, pos: int) -> Seq<T> {
    Seq::new(
        cache.len(),
        |i: int| {
            let g = i / (max_t * width);
            let within = i % (max_t * width) - pos * width;
            if 0 <= within < width {
                k[g * width + within]
            } else {
                cache[i]
            }
        },
    )
}

/// Puts the keys of a position, or its values, in the cache: those of every head
/// where they belong, and nothing else is touched.
pub fn store_kv<T: Copy>(
    cache: &mut Vec<T>,
    k: &Vec<T>,
    heads: usize,
    max_t: usize,
    width: usize,
    pos: usize,
)
    requires
        pos < max_t,
        heads * width == k@.len(),
        max_t * width <= usize::MAX,
        heads * (max_t * width) == old(cache)@.len(),
    ensures
        final(cache)@ == stored(old(cache)@, k@, max_t as int, width as int, pos as int),
{
    let ghost start = cache@;
    let ghost want = stored(start, k@, max_t as int, width as int, pos as int);
    proof {
        assert(cache.len() == cache@.len() && k.len() == k@.len());
        assert(0 <= pos * width && pos * width + width <= max_t * width) by (nonlinear_arith)
            requires
                pos + 1 <= max_t,
                0 <= width,
                0 <= pos,
        ;
    }
    let stride: usize = max_t * width;
    let at: usize = pos * width;
    let mut g: usize = 0;
    assert(0 * stride == 0);
    while g < heads
        invariant
            pos < max_t,
            heads * width == k@.len(),
            stride == max_t * width,
            at == pos * width,
            at + width <= stride,
            heads * stride == start.len(),
            g <= heads,
            want == stored(start, k@, max_t as int, width as int, pos as int),
            cache@.len() == start.len(),
            cache.len() == cache@.len() && k.len() == k@.len(),
            forall|i: int| 0 <= i < g * stride ==> #[trigger] cache@[i] == want[i],
            forall|i: int| g * stride <= i < start.len() ==> #[trigger] cache@[i] == start[i],
        decreases heads - g,
    {
        let mut d: usize = 0;
        proof {
            assert(0 <= g * stride && g * stride + stride <= heads * stride) by (nonlinear_arith)
                requires
                    g + 1 <= heads,
                    0 <= stride,
                    0 <= g,
            ;
            assert(0 <= g * width && g * width + width <= heads * width) by (nonlinear_arith)
                requires
                    g + 1 <= heads,
                    0 <= width,
                    0 <= g,
            ;
        }
        while d < width
            invariant
                g < heads,
                heads * width == k@.len(),
                g * width + width <= k@.len(),
                0 <= g * width,
                stride == max_t * width,
                at == pos * width,
                at + width <= stride,
                0 <= g * stride,
                g * stride + stride <= start.len(),
                heads * stride == start.len(),
                d <= width,
                want == stored(start, k@, max_t as int, width as int, pos as int),
                cache@.len() == start.len(),
                cache.len() == cache@.len() && k.len() == k@.len(),
                forall|i: int| 0 <= i < g * stride ==> #[trigger] cache@[i] == want[i],
                forall|i: int|
                    g * stride + at <= i < g * stride + at + d ==> #[trigger] cache@[i] == want[i],
                forall|i: int|
                    g * stride <= i < start.len() && !(g * stride + at <= i < g * stride + at + d)
                        ==> #[trigger] cache@[i] == start[i],
            decreases width - d,
        {
            proof {
                lemma_cell(heads as nat, stride as nat, g as int, at + d);
            }
            cache.set(g * stride + at + d, k[g * width + d]);
            proof {
                assert(want[g * stride + at + d] == k@[g * width + d]);
            }
            d = d + 1;
        }
        proof {
            assert forall|i: int| g * stride <= i < g * stride + stride implies #[trigger] cache@[i]
                == want[i] by {
                lemma_cell(heads as nat, stride as nat, g as int, i - g * stride);
            }
            assert(g * stride + stride == (g + 1) * stride) by (nonlinear_arith);
        }
        g = g + 1;
    }
    assert(cache@ =~= want);
}

/// What was put in for a position is found there, and what was there for another
/// position still is.
pub proof fn law_the_cache_keeps_positions_apart<T>(
    cache: Seq<T>,
    k: Seq<T>,
    heads: int,
    max_t: int,
    width: int,
    pos: int,
    g: int,
    other: int,
    d: int,
)
    requires
        0 <= pos < max_t,
        0 <= other < max_t,
        0 <= g < heads,
        0 <= d < width,
        cache.len() == heads * (max_t * width),
    ensures
        stored(cache, k, max_t, width, pos)[kv_base(g, max_t, width, other) + d] == (if other == pos {
            k[g * width + d]
        } else {
            cache[kv_base(g, max_t, width, other) + d]
        }),
{
    let stride = max_t * width;
    let within = other * width + d;
    assert(0 <= within < stride) by (nonlinear_arith)
        requires
            0 <= other,
            other + 1 <= max_t,
            0 <= d < width,
            within == other * width + d,
            stride == max_t * width,
    ;
    lemma_cell(heads as nat, stride as nat, g, within);
    assert(g * max_t * width == g * stride) by (nonlinear_arith)
        requires
            stride == max_t * width,
    ;
    assert(kv_base(g, max_t, width, other) + d == g * stride + within);
    if other != pos {
        assert(!(0 <= within - pos * width < width)) by (nonlinear_arith)
            requires
                within == other * width + d,
                other != pos,
                0 <= d < width,
        ;
    }
}

/// The two elements of a head that turn together: neighbours, or one of either half.
pub open spec fn turned(j: int, width: int, interleaved: bool) -> (int, int) {
    if interleaved {
        (2 * j, 2 * j + 1)
    } else {
        (j, j + width / 2)
    }
}

/// The two elements of a head that turn together.
pub fn rope_pair(j: usize, width: usize, interleaved: bool) -> (r: (usize, usize))
    requires
        j < width / 2,
    ensures
        (r.0 as int, r.1 as int) == turned(j as int, width as int, interleaved),
        r.0 < width && r.1 < width,
{
    if interleaved {
        (2 * j, 2 * j + 1)
    } else {
        (j, j + width / 2)
    }
}

/// No element turns twice.
pub proof fn law_every_element_turns_once(i: int, j: int, width: int, interleaved: bool)
    requires
        0 <= i < width / 2,
        0 <= j < width / 2,
    ensures
        ({
            let (a, b) = turned(i, width, interleaved);
            let (c, d) = turned(j, width, interleaved);
            &&& a != b
            &&& i != j ==> a != c && a != d && b != c && b != d
        }),
{
}

/// The key head of a query head. Where the key heads divide the query heads, there is such a one for
/// every query head.
pub fn kv_head(h: usize, heads: usize, kv_heads: usize) -> (r: usize)
    requires
        1 <= kv_heads <= heads,
    ensures
        r == h as int / (heads as int / kv_heads as int),
        r == key_of_query(h as int, heads as int, kv_heads as int),
        h < heads && heads as int % kv_heads as int == 0 ==> r < kv_heads,
{
    let groups: usize = heads / kv_heads;
    proof {
        let (n, k, g) = (heads as int, kv_heads as int, groups as int);
        vstd::arithmetic::div_mod::lemma_fundamental_div_mod(n, k);
        assert(g >= 1) by (nonlinear_arith)
            requires
                n == k * g + n % k,
                0 <= n % k < k,
                n >= k,
                k >= 1,
        ;
        vstd::arithmetic::div_mod::lemma_fundamental_div_mod(h as int, g);
        let q = h as int / g;
        if h < heads && n % k == 0 {
            assert(0 <= q < k) by (nonlinear_arith)
                requires
                    h == g * q + h as int % g,
                    0 <= h as int % g < g,
                    0 <= h < n,
                    n == k * g,
                    g >= 1,
            ;
        }
    }
    h / groups
}

/// The key head that serves a head of queries.
pub open spec fn key_of_query(h: int, heads: int, kv_heads: int) -> int {
    h / (heads / kv_heads)
}

/// Neighbours share a key head: where every key head serves `rep` heads of queries, head
/// `g * rep + j` has key head `g`.
pub proof fn law_neighbours_share_keys(heads: int, kv_heads: int, rep: int, g: int, j: int)
    requires
        kv_heads >= 1,
        rep * kv_heads == heads,
        0 <= g < kv_heads,
        0 <= j < rep,
    ensures
        key_of_query(g * rep + j, heads, kv_heads) == g,
{
    vstd::arithmetic::div_mod::lemma_div_multiples_vanish(rep, kv_heads);
    assert(kv_heads * rep == rep * kv_heads) by (nonlinear_arith);
    vstd::arithmetic::div_mod::lemma_fundamental_div_mod_converse(g * rep + j, rep, g, j);
}

/// Where elements turn in neighbouring pairs, pair `j` is the two behind the first `j` pairs; where
/// halves turn against each other, it is element `j` of each half.
pub proof fn law_neighbours_turn_or_halves_do(j: int, width: int)
    requires
        0 <= j < width / 2,
    ensures
        turned(j, width, true).1 == turned(j, width, true).0 + 1,
        turned(j, width, true).0 % 2 == 0,
        j > 0 ==> turned(j, width, true).0 == turned(j - 1, width, true).1 + 1,
        turned(0, width, true).0 == 0,
        turned(j, width, false).0 == j,
        turned(j, width, false).0 < width / 2,
        turned(j, width, false).1 - turned(j, width, false).0 == width / 2,
{
}

/// The rows of a matrix of outputs stand one behind the other.
pub proof fn law_rows_stand_in_order<T>(all: Seq<T>, width: int, row: int, d: int)
    requires
        0 <= row,
        0 <= d < width,
        row * width + width <= all.len(),
    ensures
        row_of(all, width, row).len() == width,
        row_of(all, width, row)[d] == all[row * width + d],
        row_of(all, width, 0) == all.take(width),
        row_of(all, width, row + 1) == row_of(all.skip(width), width, row) || row * width + 2 * width
            > all.len(),
{
    assert(0 <= row * width) by (nonlinear_arith)
        requires
            0 <= row,
            0 <= width,
    ;
    assert((row + 1) * width == row * width + width) by (nonlinear_arith);
    assert(0 * width == 0);
    assert(row_of(all, width, 0) =~= all.take(width));
    if row * width + 2 * width <= all.len() {
        assert(row_of(all, width, row + 1) =~= row_of(all.skip(width), width, row));
    }
}

/// The ways to project are tried from the device down, and none is passed over: one call for all, one
/// for queries, keys and values, and each by itself, as far as they are switched on.
pub proof fn law_the_ways_to_project_are_tried_in_turn(
    s: Settings,
    rows: AttnRows,
    wants_index: bool,
    held: Option<usize>,
    reply: GdnReply,
)
    requires
        rows.index > 0 ==> wants_index,
    ensures
        ({
            let run = AttnRun::begun(s, rows, wants_index, held);
            let metal = switch_on(s.value("QWEN_ATTN_METAL"@), true);
            let fused = switch_on(s.value("QWEN_ATTN_FUSED_INPUT"@), true);
            let both = fused && rows.index > 0 && switch_on(
                s.value("QWEN_QSA_FUSED_INPUT"@),
                false,
            );
            &&& run.stage is Device <==> metal && held is Some
            &&& run.stage is FusedWithIndex <==> !(metal && held is Some) && both
            &&& run.stage is Fused <==> !(metal && held is Some) && !both && fused
            &&& run.stage is Each <==> !(metal && held is Some) && !fused
            &&& run.device_index <==> rows.index > 0 && held is Some && held->0 >= rows.q + rows.kv
                + rows.kv + rows.index
            &&& run.stage is Device && reply is Declined ==> (run.after(reply).stage is FusedWithIndex
                <==> both) && (run.after(reply).stage is Each <==> !fused)
        }),
{
}

/// What each way to project leaves to be done: a call for all leaves nothing, one without the index
/// leaves the index where it is asked for, and one that is declined leaves all to the next.
pub proof fn law_what_a_projection_leaves(run: AttnRun, reply: GdnReply)
    requires
        run.wf(),
    ensures
        ({
            let next = run.after(reply);
            let gave = run.stage is Each || (reply is Done && (run.stage is Device
                || run.stage is FusedWithIndex || run.stage is Fused));
            let with_index = reply is Done && (run.stage is FusedWithIndex || (run.stage is Device
                && run.device_index));
            &&& gave ==> next.projected && next.index == with_index
            &&& gave ==> (next.stage is Index <==> run.wants_index && !with_index)
            &&& gave ==> (next.stage is Done <==> !run.wants_index || with_index)
            &&& run.stage is FusedWithIndex && !(reply is Done) ==> next.stage is Fused
            &&& run.stage is Fused && !(reply is Done) ==> next.stage is Each
            &&& run.stage is Index ==> next.stage is Done && next.index
            &&& !gave ==> next.projected == run.projected
        }),
{
}

} // verus!
