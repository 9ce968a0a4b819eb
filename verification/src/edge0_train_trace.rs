//! Training samples for the predictor of the next layer's experts.
//!
//! A layer's input and experts during one token are kept until the layer behind has run for the next
//! token; then both make one sample, in the file of the layer that made the features.

use vstd::prelude::*;
use vstd::string::StringExecFns;

use crate::bytes::{le, le_bytes, lemma_bases, lemma_le_bytes_len, lemma_le_same, push_le, read_le};
use crate::edge0_router::{append_halves, narrowed_all};
use crate::text::{chars_of, decimal, parse_spec, parse_unsigned, push_decimal};

verus! {

/// The version of the format.
pub const TRACE_VERSION: u32 = 1;

/// The width of routes where no setting gives another.
pub const DEFAULT_TRACE_K: usize = 4;

/// The first layer that is sampled.
pub const TRAIN_OWNER_FIRST: usize = 6;

/// The last layer that is sampled.
pub const TRAIN_OWNER_LAST: usize = 37;

/// The length of a file's header.
pub const HEADER_BYTES: u32 = 32;

/// What stands for an expert that is not there.
pub const MISSING_EXPERT: u16 = 0xffff;

/// After how many samples the files are flushed.
pub const FLUSH_EVERY: u64 = 4096;

/// The eight bytes that a file starts with.
pub open spec fn trace_magic() -> Seq<u8> {
    seq![0x45u8, 0x30, 0x54, 0x52, 0x43, 0x30, 0x30, 0x31]
}

/// The length of one sample: two numbers, the features, three routes and the weights of one.
pub open spec fn record_len(hidden: int, k: int) -> int {
    16 + hidden * 2 + k * 8
}

/// The length of one sample.
pub fn record_bytes(hidden: usize, k: usize) -> (n: u32)
    requires
        record_len(hidden as int, k as int) <= u32::MAX,
    ensures
        n == record_len(hidden as int, k as int),
{
    (16 + hidden * 2 + k * 2 * 4) as u32
}

/// A route of exactly `k` experts, filled up where it is shorter; an expert that no 16-bit number can
/// name is not there.
pub open spec fn fixed_route(route: Seq<usize>, k: nat) -> Seq<u16> {
    Seq::new(
        k,
        |i: int|
            if i < route.len() && route[i] < MISSING_EXPERT {
                route[i] as u16
            } else {
                MISSING_EXPERT
            },
    )
}

/// A route of exactly `k` experts.
pub fn route_to_fixed(route: &Vec<usize>, k: usize) -> (out: Vec<u16>)
    ensures
        out@ == fixed_route(route@, k as nat),
{
    let mut out: Vec<u16> = Vec::new();
    let mut i: usize = 0;
    while i < k
        invariant
            i <= k,
            out.len() == i,
            forall|j: int| 0 <= j < i ==> #[trigger] out[j] == fixed_route(route@, k as nat)[j],
        decreases k - i,
    {
        if i < route.len() && route[i] < MISSING_EXPERT as usize {
            out.push(route[i] as u16);
        } else {
            out.push(MISSING_EXPERT);
        }
        i += 1;
    }
    assert(out@ =~= fixed_route(route@, k as nat));
    out
}

/// The features of a layer during one token, kept for the next.
#[derive(Debug)]
pub struct Pending {
    pub generation: u64,
    pub hidden: Vec<u16>,
    pub current: Vec<u16>,
    pub previous: Vec<u16>,
}

/// A `Pending` as a value.
pub struct PendingView {
    pub generation: u64,
    pub hidden: Seq<u16>,
    pub current: Seq<u16>,
    pub previous: Seq<u16>,
}

impl View for Pending {
    type V = PendingView;

    open spec fn view(&self) -> PendingView {
        PendingView {
            generation: self.generation,
            hidden: self.hidden@,
            current: self.current@,
            previous: self.previous@,
        }
    }
}

/// Optional features as values.
pub open spec fn pending_view(v: Seq<Option<Pending>>) -> Seq<Option<PendingView>> {
    v.map_values(
        |p: Option<Pending>|
            match p {
                Some(x) => Some(x@),
                None => None,
            },
    )
}

/// 16-bit numbers as bytes.
pub open spec fn halves_bytes(v: Seq<u16>) -> Seq<u8>
    decreases v.len(),
{
    if v.len() == 0 {
        Seq::empty()
    } else {
        halves_bytes(v.drop_last()) + le_bytes(v.last() as nat, 2)
    }
}

/// The bytes of one sample.
pub open spec fn record_spec(
    run_id: u64,
    p: PendingView,
    target: Seq<u16>,
    weights: Seq<u16>,
) -> Seq<u8> {
    le_bytes(run_id as nat, 8) + le_bytes(p.generation as nat, 8) + halves_bytes(p.hidden)
        + halves_bytes(p.current) + halves_bytes(p.previous) + halves_bytes(target) + halves_bytes(
        weights,
    )
}

fn push_halves(out: &mut Vec<u8>, v: &Vec<u16>)
    ensures
        final(out)@ == old(out)@ + halves_bytes(v@),
{
    let mut i: usize = 0;
    assert(out@ =~= old(out)@ + halves_bytes(v@.take(0)));
    while i < v.len()
        invariant
            i <= v.len(),
            out@ == old(out)@ + halves_bytes(v@.take(i as int)),
        decreases v.len() - i,
    {
        assert(v@.take(i + 1).drop_last() =~= v@.take(i as int));
        push_le(out, v[i] as u64, 2);
        i += 1;
        assert(out@ =~= old(out)@ + halves_bytes(v@.take(i as int)));
    }
    assert(v@.take(i as int) =~= v@);
}

proof fn lemma_halves_len(v: Seq<u16>)
    ensures
        halves_bytes(v).len() == 2 * v.len(),
    decreases v.len(),
{
    if v.len() > 0 {
        lemma_halves_len(v.drop_last());
        lemma_le_bytes_len(v.last() as nat, 2);
    }
}

/// A 16-bit number can be read back where it was written.
proof fn lemma_halves_read(v: Seq<u16>, i: int)
    requires
        0 <= i < v.len(),
    ensures
        le(halves_bytes(v), 2 * i, 2) == v[i],
    decreases v.len(),
{
    let all = halves_bytes(v);
    let rest = v.drop_last();
    lemma_halves_len(rest);
    lemma_le_bytes_len(v.last() as nat, 2);
    lemma_bases();
    if i == v.len() - 1 {
        let last = le_bytes(v.last() as nat, 2);
        assert forall|j: int| 0 <= j < 2 implies #[trigger] all[2 * i + j] == last[0 + j] by {}
        lemma_le_same(all, 2 * i, last, 0, 2);
        crate::bytes::law_le_round_trip(v.last() as nat, 2);
    } else {
        lemma_halves_read(rest, i);
        let h = halves_bytes(rest);
        assert forall|j: int| 0 <= j < 2 implies #[trigger] all[2 * i + j] == h[2 * i + j] by {}
        lemma_le_same(all, 2 * i, h, 2 * i, 2);
    }
}

proof fn lemma_part_read(before: Seq<u8>, v: Seq<u16>, after: Seq<u8>, i: int)
    requires
        0 <= i < v.len(),
    ensures
        le(before + halves_bytes(v) + after, before.len() + 2 * i, 2) == v[i],
{
    lemma_halves_len(v);
    lemma_halves_read(v, i);
    let all = before + halves_bytes(v) + after;
    let h = halves_bytes(v);
    let at = before.len() + 2 * i;
    assert forall|j: int| 0 <= j < 2 implies #[trigger] all[at + j] == h[2 * i + j] by {}
    lemma_le_same(all, at, h, 2 * i, 2);
}

/// A sample has the length that the format gives it, and everything that went into it can be read
/// back from its place.
pub proof fn law_record_can_be_read_back(
    run_id: u64,
    p: PendingView,
    target: Seq<u16>,
    weights: Seq<u16>,
    hidden: int,
    k: int,
    h: int,
    i: int,
)
    requires
        p.hidden.len() == hidden,
        p.current.len() == k,
        p.previous.len() == k,
        target.len() == k,
        weights.len() == k,
        0 <= h < hidden,
        0 <= i < k,
    ensures
        ({
            let r = record_spec(run_id, p, target, weights);
            &&& r.len() == record_len(hidden, k)
            &&& le(r, 0, 8) == run_id
            &&& le(r, 8, 8) == p.generation
            &&& le(r, 16 + 2 * h, 2) == p.hidden[h]
            &&& le(r, 16 + 2 * hidden + 2 * i, 2) == p.current[i]
            &&& le(r, 16 + 2 * hidden + 2 * k + 2 * i, 2) == p.previous[i]
            &&& le(r, 16 + 2 * hidden + 4 * k + 2 * i, 2) == target[i]
            &&& le(r, 16 + 2 * hidden + 6 * k + 2 * i, 2) == weights[i]
        }),
{
    let r = record_spec(run_id, p, target, weights);
    let a = le_bytes(run_id as nat, 8);
    let b = le_bytes(p.generation as nat, 8);
    let hh = halves_bytes(p.hidden);
    let hc = halves_bytes(p.current);
    let hp = halves_bytes(p.previous);
    let ht = halves_bytes(target);
    let hw = halves_bytes(weights);
    lemma_le_bytes_len(run_id as nat, 8);
    lemma_le_bytes_len(p.generation as nat, 8);
    lemma_halves_len(p.hidden);
    lemma_halves_len(p.current);
    lemma_halves_len(p.previous);
    lemma_halves_len(target);
    lemma_halves_len(weights);
    lemma_bases();
    assert forall|j: int| 0 <= j < 8 implies #[trigger] r[0 + j] == a[0 + j] by {}
    lemma_le_same(r, 0, a, 0, 8);
    crate::bytes::law_le_round_trip(run_id as nat, 8);
    assert forall|j: int| 0 <= j < 8 implies #[trigger] r[8 + j] == b[0 + j] by {}
    lemma_le_same(r, 8, b, 0, 8);
    crate::bytes::law_le_round_trip(p.generation as nat, 8);
    assert(r =~= (a + b) + hh + (hc + hp + ht + hw));
    lemma_part_read(a + b, p.hidden, hc + hp + ht + hw, h);
    assert(r =~= (a + b + hh) + hc + (hp + ht + hw));
    lemma_part_read(a + b + hh, p.current, hp + ht + hw, i);
    assert(r =~= (a + b + hh + hc) + hp + (ht + hw));
    lemma_part_read(a + b + hh + hc, p.previous, ht + hw, i);
    assert(r =~= (a + b + hh + hc + hp) + ht + hw);
    lemma_part_read(a + b + hh + hc + hp, target, hw, i);
    assert(r =~= (a + b + hh + hc + hp + ht) + hw + Seq::empty());
    lemma_part_read(a + b + hh + hc + hp + ht, weights, Seq::empty(), i);
}

/// Why a sample cannot be taken.
#[derive(Clone, Copy, Debug, PartialEq, Eq, Structural)]
pub enum TraceFault {
    /// A model of another shape than samples are taken of.
    Geometry { layers: usize, hidden: usize, experts: usize },
    /// The setting of the width of routes is no number.
    NotANumber,
    /// The width of routes is zero or more than there are experts.
    Width { k: usize, experts: usize },
    /// A route or its weights of another width.
    RouteWidth { layer: usize, ids: usize, weights: usize },
    /// Features of another width.
    HiddenWidth { layer: usize, got: usize, want: usize },
}

/// The width of routes that a setting gives, for a model of which samples are taken.
pub open spec fn trace_k_spec(layers: usize, hidden: usize, experts: usize, value: Option<&str>) -> Result<
    usize,
    TraceFault,
> {
    if hidden != 2048 || experts != 256 || layers != 40 {
        Err(TraceFault::Geometry { layers, hidden, experts })
    } else {
        let k = match value {
            Some(v) => parse_spec(v@, usize::MAX as nat),
            None => Some(DEFAULT_TRACE_K as nat),
        };
        match k {
            None => Err(TraceFault::NotANumber),
            Some(k) => if k == 0 || k > experts {
                Err(TraceFault::Width { k: k as usize, experts })
            } else {
                Ok(k as usize)
            },
        }
    }
}

/// The collector's state as a value.
pub struct TraceView {
    pub hidden: int,
    pub k: int,
    pub record_bytes: u32,
    pub active: bool,
    pub generation: u64,
    pub run_id: u64,
    pub current: Seq<Option<PendingView>>,
    pub next: Seq<Option<PendingView>>,
    pub previous_routes: Seq<Seq<usize>>,
    pub samples: u64,
}

/// No features of any layer.
pub open spec fn nothing_pending(layers: nat) -> Seq<Option<PendingView>> {
    Seq::new(layers, |i: int| None)
}

/// The next generation.
pub open spec fn after(g: u64) -> u64 {
    if g == u64::MAX {
        g
    } else {
        (g + 1) as u64
    }
}

impl TraceView {
    /// Every list has one place per layer, and sampled layers have a layer behind them.
    pub open spec fn wf(self) -> bool {
        &&& self.current.len() == self.previous_routes.len()
        &&& self.next.len() == self.previous_routes.len()
        &&& self.previous_routes.len() > TRAIN_OWNER_LAST + 1
    }

    /// The state at the beginning of decoding.
    pub open spec fn begin_decode(self) -> TraceView {
        TraceView {
            active: true,
            generation: 0,
            current: nothing_pending(self.current.len()),
            next: nothing_pending(self.next.len()),
            previous_routes: Seq::new(self.previous_routes.len(), |i: int| Seq::empty()),
            ..self
        }
    }

    /// The state at the beginning of a token.
    pub open spec fn begin_token(self) -> TraceView {
        if self.active {
            TraceView {
                current: self.next,
                next: nothing_pending(self.current.len()),
                generation: after(self.generation),
                ..self
            }
        } else {
            self
        }
    }

    /// Whether a layer completes samples.
    pub open spec fn completes(self, layer: int) -> bool {
        TRAIN_OWNER_FIRST < layer <= TRAIN_OWNER_LAST + 1
    }

    /// What is wrong with what a layer ran, if anything.
    pub open spec fn fault(self, layer: usize, hidden: int, ids: int, weights: int) -> Option<
        TraceFault,
    > {
        if !self.active {
            None
        } else if ids != self.k || weights != self.k {
            Some(
                TraceFault::RouteWidth { layer, ids: ids as usize, weights: weights as usize },
            )
        } else if hidden != self.hidden {
            Some(
                TraceFault::HiddenWidth { layer, got: hidden as usize, want: self.hidden as usize },
            )
        } else {
            None
        }
    }

    /// The sample that a layer completes: the file of the layer before it, and the bytes.
    pub open spec fn sample(self, layer: int, executed: Seq<usize>, weights: Seq<u16>) -> Option<
        (int, Seq<u8>),
    > {
        if self.active && self.completes(layer) {
            match self.current[layer] {
                Some(p) => if after(p.generation) == self.generation {
                    Some(
                        (
                            layer - 1,
                            record_spec(
                                self.run_id,
                                p,
                                fixed_route(executed, self.k as nat),
                                weights,
                            ),
                        ),
                    )
                } else {
                    None
                },
                None => None,
            }
        } else {
            None
        }
    }

    /// The state after a layer has run.
    pub open spec fn observed(
        self,
        layer: int,
        hidden: Seq<u32>,
        executed: Seq<usize>,
        weights: Seq<u16>,
    ) -> TraceView {
        if !self.active {
            self
        } else {
            TraceView {
                current: if self.completes(layer) {
                    self.current.update(layer, None)
                } else {
                    self.current
                },
                samples: if self.sample(layer, executed, weights) is Some {
                    after(self.samples)
                } else {
                    self.samples
                },
                next: if TRAIN_OWNER_FIRST <= layer <= TRAIN_OWNER_LAST {
                    self.next.update(
                        layer + 1,
                        Some(
                            PendingView {
                                generation: self.generation,
                                hidden: narrowed_all(hidden),
                                current: fixed_route(executed, self.k as nat),
                                previous: fixed_route(self.previous_routes[layer], self.k as nat),
                            },
                        ),
                    )
                } else {
                    self.next
                },
                previous_routes: self.previous_routes.update(layer, executed),
                ..self
            }
        }
    }
}

/// Collects samples.
pub struct TraceCollector {
    pub hidden: usize,
    pub k: usize,
    pub record_bytes: u32,
    pub active: bool,
    pub generation: u64,
    pub run_id: u64,
    pub current: Vec<Option<Pending>>,
    pub next: Vec<Option<Pending>>,
    pub previous_routes: Vec<Vec<usize>>,
    pub samples: u64,
}

impl View for TraceCollector {
    type V = TraceView;

    open spec fn view(&self) -> TraceView {
        TraceView {
            hidden: self.hidden as int,
            k: self.k as int,
            record_bytes: self.record_bytes,
            active: self.active,
            generation: self.generation,
            run_id: self.run_id,
            current: pending_view(self.current@),
            next: pending_view(self.next@),
            previous_routes: self.previous_routes@.map_values(|r: Vec<usize>| r@),
            samples: self.samples,
        }
    }
}

fn clear_pending(v: &mut Vec<Option<Pending>>)
    ensures
        pending_view(final(v)@) == nothing_pending(old(v)@.len()),
{
    let mut i: usize = 0;
    while i < v.len()
        invariant
            i <= v.len(),
            v.len() == old(v).len(),
            forall|j: int| 0 <= j < i ==> (#[trigger] v[j]) is None,
        decreases v.len() - i,
    {
        v[i] = None;
        i += 1;
    }
    assert(pending_view(v@) =~= nothing_pending(old(v)@.len()));
}

fn no_pending(n: usize) -> (v: Vec<Option<Pending>>)
    ensures
        pending_view(v@) == nothing_pending(n as nat),
{
    let mut v: Vec<Option<Pending>> = Vec::new();
    while v.len() < n
        invariant
            v.len() <= n,
            forall|j: int| 0 <= j < v.len() ==> (#[trigger] v[j]) is None,
        decreases n - v.len(),
    {
        v.push(None);
    }
    assert(pending_view(v@) =~= nothing_pending(n as nat));
    v
}

impl TraceCollector {
    /// A collector for a model of which samples are taken, with routes as wide as the setting says.
    pub fn from_env(
        layers: usize,
        hidden: usize,
        experts: usize,
        k_setting: Option<&str>,
        run_id: u64,
    ) -> (r: Result<TraceCollector, TraceFault>)
        ensures
            match r {
                Ok(c) => {
                    &&& trace_k_spec(layers, hidden, experts, k_setting) == Ok::<
                        usize,
                        TraceFault,
                    >(c.k)
                    &&& c@.wf()
                    &&& c@ == (TraceView {
                        hidden: hidden as int,
                        k: c.k as int,
                        record_bytes: record_len(hidden as int, c.k as int) as u32,
                        active: false,
                        generation: 0,
                        run_id,
                        current: nothing_pending(layers as nat),
                        next: nothing_pending(layers as nat),
                        previous_routes: Seq::new(layers as nat, |i: int| Seq::empty()),
                        samples: 0,
                    })
                },
                Err(f) => trace_k_spec(layers, hidden, experts, k_setting) == Err::<
                    usize,
                    TraceFault,
                >(f),
            },
    {
        if hidden != 2048 || experts != 256 || layers != 40 {
            return Err(TraceFault::Geometry { layers, hidden, experts });
        }
        let k: usize = match k_setting {
            Some(v) => match parse_unsigned(&chars_of(v), usize::MAX as u64) {
                Some(n) => n as usize,
                None => {
                    return Err(TraceFault::NotANumber);
                },
            },
            None => DEFAULT_TRACE_K,
        };
        if k == 0 || k > experts {
            return Err(TraceFault::Width { k, experts });
        }
        let mut previous_routes: Vec<Vec<usize>> = Vec::new();
        while previous_routes.len() < layers
            invariant
                previous_routes.len() <= layers,
                forall|i: int|
                    0 <= i < previous_routes.len() ==> (#[trigger] previous_routes[i])@ == Seq::<
                        usize,
                    >::empty(),
            decreases layers - previous_routes.len(),
        {
            previous_routes.push(Vec::new());
        }
        let c = TraceCollector {
            hidden,
            k,
            record_bytes: record_bytes(hidden, k),
            active: false,
            generation: 0,
            run_id,
            current: no_pending(layers),
            next: no_pending(layers),
            previous_routes,
            samples: 0,
        };
        assert(c@.previous_routes =~= Seq::new(layers as nat, |i: int| Seq::empty()));
        Ok(c)
    }

    /// Begins decoding: forgets all features and routes.
    pub fn begin_decode(&mut self)
        ensures
            final(self)@ == old(self)@.begin_decode(),
            old(self)@.wf() ==> final(self)@.wf(),
    {
        self.active = true;
        self.generation = 0;
        clear_pending(&mut self.current);
        clear_pending(&mut self.next);
        let mut i: usize = 0;
        while i < self.previous_routes.len()
            invariant
                i <= self.previous_routes.len(),
                self.previous_routes.len() == old(self).previous_routes.len(),
                forall|j: int|
                    0 <= j < i ==> (#[trigger] self.previous_routes[j])@ == Seq::<usize>::empty(),
                self.hidden == old(self).hidden,
                self.k == old(self).k,
                self.record_bytes == old(self).record_bytes,
                self.run_id == old(self).run_id,
                self.samples == old(self).samples,
                self.active,
                self.generation == 0,
                pending_view(self.current@) == nothing_pending(old(self).current@.len()),
                pending_view(self.next@) == nothing_pending(old(self).next@.len()),
            decreases self.previous_routes.len() - i,
        {
            self.previous_routes[i].clear();
            i += 1;
        }
        assert(self@.previous_routes =~= old(self)@.begin_decode().previous_routes);
    }

    /// Begins a token: the features of the last one can be completed now.
    pub fn begin_token(&mut self)
        ensures
            final(self)@ == old(self)@.begin_token(),
            old(self)@.wf() ==> final(self)@.wf(),
    {
        if self.active {
            std::mem::swap(&mut self.current, &mut self.next);
            clear_pending(&mut self.next);
            self.generation = self.generation.saturating_add(1);
        }
    }

    /// Notes what a layer ran. `weights` are the patterns of the halves of the route's shares. Gives the
    /// sample that is complete now: the layer whose file it belongs to, and its bytes.
    pub fn observe(
        &mut self,
        layer: usize,
        hidden: &Vec<u32>,
        executed: &Vec<usize>,
        weights: &Vec<u16>,
    ) -> (r: Result<Option<(usize, Vec<u8>)>, TraceFault>)
        requires
            old(self)@.wf(),
            old(self)@.active && old(self)@.fault(
                layer,
                hidden@.len() as int,
                executed@.len() as int,
                weights@.len() as int,
            ) is None ==> layer < old(self)@.previous_routes.len(),
        ensures
            match r {
                Err(f) => old(self)@.fault(
                    layer,
                    hidden@.len() as int,
                    executed@.len() as int,
                    weights@.len() as int,
                ) == Some(f) && final(self)@ == old(self)@,
                Ok(out) => {
                    &&& old(self)@.fault(
                        layer,
                        hidden@.len() as int,
                        executed@.len() as int,
                        weights@.len() as int,
                    ) is None
                    &&& final(self)@ == old(self)@.observed(
                        layer as int,
                        hidden@,
                        executed@,
                        weights@,
                    )
                    &&& match out {
                        Some((owner, bytes)) => old(self)@.sample(
                            layer as int,
                            executed@,
                            weights@,
                        ) == Some((owner as int, bytes@)),
                        None => old(self)@.sample(layer as int, executed@, weights@) is None,
                    }
                },
            },
            final(self)@.wf(),
    {
        if !self.active {
            return Ok(None);
        }
        if executed.len() != self.k || weights.len() != self.k {
            return Err(
                TraceFault::RouteWidth { layer, ids: executed.len(), weights: weights.len() },
            );
        }
        if hidden.len() != self.hidden {
            return Err(
                TraceFault::HiddenWidth { layer, got: hidden.len(), want: self.hidden },
            );
        }
        let ghost start = self@;
        let ghost want = start.observed(layer as int, hidden@, executed@, weights@);
        assert(start.current.len() == self.current.len());
        assert(start.next.len() == self.next.len());
        assert(start.previous_routes.len() == self.previous_routes.len());
        let mut out: Option<(usize, Vec<u8>)> = None;
        if layer > TRAIN_OWNER_FIRST && layer <= TRAIN_OWNER_LAST + 1 {
            assert(start.current[layer as int] == (match self.current[layer as int] {
                Some(x) => Some(x@),
                None => None,
            }));
            let mut taken: Option<Pending> = None;
            std::mem::swap(&mut taken, &mut self.current[layer]);
            if let Some(p) = taken {
                if p.generation.saturating_add(1) == self.generation {
                    out = Some((layer - 1, self.write_record(&p, executed, weights)));
                    self.samples = self.samples.saturating_add(1);
                }
            }
        }
        assert(self@.current =~= want.current);
        if TRAIN_OWNER_FIRST <= layer && layer <= TRAIN_OWNER_LAST {
            assert(start.previous_routes[layer as int] == self.previous_routes[layer as int]@);
            let previous = route_to_fixed(&self.previous_routes[layer], self.k);
            let current = route_to_fixed(executed, self.k);
            let mut halves: Vec<u16> = Vec::new();
            append_halves(&mut halves, hidden);
            assert(halves@ =~= narrowed_all(hidden@));
            self.next[layer + 1] = Some(
                Pending { generation: self.generation, hidden: halves, current, previous },
            );
        }
        assert(self@.next =~= want.next);
        let route: Vec<usize> = executed.clone();
        assert(route@ =~= executed@);
        self.previous_routes[layer] = route;
        assert(self@.previous_routes =~= want.previous_routes);
        Ok(out)
    }

    fn write_record(&self, p: &Pending, target: &Vec<usize>, weights: &Vec<u16>) -> (out: Vec<u8>)
        ensures
            out@ == record_spec(self.run_id, p@, fixed_route(target@, self.k as nat), weights@),
    {
        let mut out: Vec<u8> = Vec::new();
        push_le(&mut out, self.run_id, 8);
        push_le(&mut out, p.generation, 8);
        push_halves(&mut out, &p.hidden);
        push_halves(&mut out, &p.current);
        push_halves(&mut out, &p.previous);
        push_halves(&mut out, &route_to_fixed(target, self.k));
        push_halves(&mut out, weights);
        assert(out@ =~= record_spec(
            self.run_id,
            p@,
            fixed_route(target@, self.k as nat),
            weights@,
        ));
        out
    }

    /// Whether the files are flushed after the sample that was taken last.
    pub fn flush_due(&self) -> (r: bool)
        ensures
            r == (self.samples % FLUSH_EVERY == 0),
    {
        self.samples % FLUSH_EVERY == 0
    }
}

/// The features that a layer had during one token make a sample with what the layer behind runs during
/// the next token.
pub proof fn law_features_meet_the_next_token(
    t: TraceView,
    layer: int,
    hidden: Seq<u32>,
    executed: Seq<usize>,
    weights: Seq<u16>,
    target: Seq<usize>,
    target_weights: Seq<u16>,
)
    requires
        t.wf(),
        t.active,
        t.generation < u64::MAX,
        TRAIN_OWNER_FIRST <= layer <= TRAIN_OWNER_LAST,
    ensures
        t.observed(layer, hidden, executed, weights).begin_token().sample(
            layer + 1,
            target,
            target_weights,
        ) == Some(
            (
                layer,
                record_spec(
                    t.run_id,
                    PendingView {
                        generation: t.generation,
                        hidden: narrowed_all(hidden),
                        current: fixed_route(executed, t.k as nat),
                        previous: fixed_route(t.previous_routes[layer], t.k as nat),
                    },
                    fixed_route(target, t.k as nat),
                    target_weights,
                ),
            ),
        ),
{
}

/// The header of a file.
pub open spec fn header_spec(owner: int, hidden: int, experts: int, k: int, record: u32) -> Seq<u8> {
    trace_magic() + le_bytes(TRACE_VERSION as nat, 4) + le_bytes((owner % 65536) as nat, 2)
        + le_bytes((hidden % 65536) as nat, 2) + le_bytes((experts % 65536) as nat, 2) + le_bytes(
        (k % 65536) as nat,
        2,
    ) + le_bytes(HEADER_BYTES as nat, 4) + le_bytes(record as nat, 4) + le_bytes(0, 4)
}

/// The header of a file.
pub fn write_header(owner: usize, hidden: usize, experts: usize, k: usize, record: u32) -> (out: Vec<
    u8,
>)
    ensures
        out@ == header_spec(owner as int, hidden as int, experts as int, k as int, record),
{
    let mut out: Vec<u8> = Vec::new();
    out.push(0x45);
    out.push(0x30);
    out.push(0x54);
    out.push(0x52);
    out.push(0x43);
    out.push(0x30);
    out.push(0x30);
    out.push(0x31);
    assert(out@ =~= trace_magic());
    push_le(&mut out, TRACE_VERSION as u64, 4);
    push_le(&mut out, (owner % 65536) as u64, 2);
    push_le(&mut out, (hidden % 65536) as u64, 2);
    push_le(&mut out, (experts % 65536) as u64, 2);
    push_le(&mut out, (k % 65536) as u64, 2);
    push_le(&mut out, HEADER_BYTES as u64, 4);
    push_le(&mut out, record as u64, 4);
    push_le(&mut out, 0, 4);
    out
}

/// What the header of a file says.
#[derive(Clone, Copy, Debug, PartialEq, Eq, Structural)]
pub struct HeaderFields {
    pub version: u32,
    pub owner: usize,
    pub hidden: usize,
    pub experts: usize,
    pub k: usize,
    pub header: u32,
    pub record: u32,
}

/// The fields of a header.
pub open spec fn header_fields(raw: Seq<u8>) -> HeaderFields {
    HeaderFields {
        version: le(raw, 8, 4) as u32,
        owner: le(raw, 12, 2) as usize,
        hidden: le(raw, 14, 2) as usize,
        experts: le(raw, 16, 2) as usize,
        k: le(raw, 18, 2) as usize,
        header: le(raw, 20, 4) as u32,
        record: le(raw, 24, 4) as u32,
    }
}

/// Why samples cannot be added to a file.
#[derive(Clone, Copy, Debug, PartialEq, Eq, Structural)]
pub enum HeaderFault {
    /// The file is shorter than a header.
    Short,
    /// The file is none of samples, or of samples of another shape.
    Mismatch(HeaderFields),
}

/// Whether the header of a file fits samples of a shape.
pub open spec fn header_check(
    raw: Seq<u8>,
    owner: usize,
    hidden: usize,
    experts: usize,
    k: usize,
    record: u32,
) -> Result<(), HeaderFault> {
    if raw.len() < HEADER_BYTES {
        Err(HeaderFault::Short)
    } else if raw.take(8) == trace_magic() && header_fields(raw) == (HeaderFields {
        version: TRACE_VERSION,
        owner,
        hidden,
        experts,
        k,
        header: HEADER_BYTES,
        record,
    }) {
        Ok(())
    } else {
        Err(HeaderFault::Mismatch(header_fields(raw)))
    }
}

/// Checks the header of a file that samples are to be added to.
pub fn validate_existing_header(
    raw: &[u8],
    owner: usize,
    hidden: usize,
    experts: usize,
    k: usize,
    record: u32,
) -> (r: Result<(), HeaderFault>)
    ensures
        r == header_check(raw@, owner, hidden, experts, k, record),
{
    if raw.len() < HEADER_BYTES as usize {
        return Err(HeaderFault::Short);
    }
    proof {
        lemma_bases();
    }
    let fields = HeaderFields {
        version: read_le(raw, 8, 4) as u32,
        owner: read_le(raw, 12, 2) as usize,
        hidden: read_le(raw, 14, 2) as usize,
        experts: read_le(raw, 16, 2) as usize,
        k: read_le(raw, 18, 2) as usize,
        header: read_le(raw, 20, 4) as u32,
        record: read_le(raw, 24, 4) as u32,
    };
    assert(fields == header_fields(raw@));
    let magic: [u8; 8] = [0x45u8, 0x30, 0x54, 0x52, 0x43, 0x30, 0x30, 0x31];
    let mut i: usize = 0;
    while i < 8
        invariant
            i <= 8,
            raw.len() >= 32,
            magic@ == trace_magic(),
            fields == header_fields(raw@),
            forall|j: int| 0 <= j < i ==> raw@[j] == trace_magic()[j],
        decreases 8 - i,
    {
        if raw[i] != magic[i] {
            assert(raw@.take(8)[i as int] != trace_magic()[i as int]);
            return Err(HeaderFault::Mismatch(fields));
        }
        i += 1;
    }
    assert(raw@.take(8) =~= trace_magic());
    if fields.version == TRACE_VERSION && fields.owner == owner && fields.hidden == hidden
        && fields.experts == experts && fields.k == k && fields.header == HEADER_BYTES
        && fields.record == record {
        Ok(())
    } else {
        Err(HeaderFault::Mismatch(fields))
    }
}

proof fn lemma_field_read(before: Seq<u8>, v: nat, w: nat, after: Seq<u8>)
    requires
        v < crate::bytes::base(w),
    ensures
        le(before + le_bytes(v, w) + after, before.len() as int, w) == v,
{
    lemma_le_bytes_len(v, w);
    let all = before + le_bytes(v, w) + after;
    let b = le_bytes(v, w);
    assert forall|j: int| 0 <= j < w implies #[trigger] all[before.len() + j] == b[0 + j] by {}
    lemma_le_same(all, before.len() as int, b, 0, w);
    crate::bytes::law_le_round_trip(v, w);
}

/// A file that was begun for samples of a shape takes samples of that shape.
#[verifier::spinoff_prover]
#[verifier::rlimit(40)]
pub proof fn law_header_fits_itself(owner: usize, hidden: usize, experts: usize, k: usize, record: u32)
    requires
        owner < 65536,
        hidden < 65536,
        experts < 65536,
        k < 65536,
    ensures
        header_check(
            header_spec(owner as int, hidden as int, experts as int, k as int, record),
            owner,
            hidden,
            experts,
            k,
            record,
        ) == Ok::<(), HeaderFault>(()),
{
    let h = header_spec(owner as int, hidden as int, experts as int, k as int, record);
    let m = trace_magic();
    let a = le_bytes(TRACE_VERSION as nat, 4);
    let b = le_bytes(owner as nat, 2);
    let c = le_bytes(hidden as nat, 2);
    let d = le_bytes(experts as nat, 2);
    let e = le_bytes(k as nat, 2);
    let f = le_bytes(HEADER_BYTES as nat, 4);
    let g = le_bytes(record as nat, 4);
    let z = le_bytes(0, 4);
    lemma_bases();
    lemma_le_bytes_len(TRACE_VERSION as nat, 4);
    lemma_le_bytes_len(owner as nat, 2);
    lemma_le_bytes_len(hidden as nat, 2);
    lemma_le_bytes_len(experts as nat, 2);
    lemma_le_bytes_len(k as nat, 2);
    lemma_le_bytes_len(HEADER_BYTES as nat, 4);
    lemma_le_bytes_len(record as nat, 4);
    lemma_le_bytes_len(0, 4);
    assert(h.take(8) =~= m);
    assert(le(h, 8, 4) == TRACE_VERSION) by {
        assert(h =~= m + a + (b + c + d + e + f + g + z));
        lemma_field_read(m, TRACE_VERSION as nat, 4, b + c + d + e + f + g + z);
    }
    assert(le(h, 12, 2) == owner) by {
        assert(h =~= (m + a) + b + (c + d + e + f + g + z));
        lemma_field_read(m + a, owner as nat, 2, c + d + e + f + g + z);
    }
    assert(le(h, 14, 2) == hidden) by {
        assert(h =~= (m + a + b) + c + (d + e + f + g + z));
        lemma_field_read(m + a + b, hidden as nat, 2, d + e + f + g + z);
    }
    assert(le(h, 16, 2) == experts) by {
        assert(h =~= (m + a + b + c) + d + (e + f + g + z));
        lemma_field_read(m + a + b + c, experts as nat, 2, e + f + g + z);
    }
    assert(le(h, 18, 2) == k) by {
        assert(h =~= (m + a + b + c + d) + e + (f + g + z));
        lemma_field_read(m + a + b + c + d, k as nat, 2, f + g + z);
    }
    assert(le(h, 20, 4) == HEADER_BYTES) by {
        assert(h =~= (m + a + b + c + d + e) + f + (g + z));
        lemma_field_read(m + a + b + c + d + e, HEADER_BYTES as nat, 4, g + z);
    }
    assert(le(h, 24, 4) == record) by {
        assert(h =~= (m + a + b + c + d + e + f) + g + z);
        lemma_field_read(m + a + b + c + d + e + f, record as nat, 4, z);
    }
}

/// The number of a run, from the time in nanoseconds and the number of the process.
pub fn make_run_id(nanos: u64, process: u32) -> (id: u64)
    ensures
        id == nanos ^ ((process as u64) << 32),
{
    nanos ^ ((process as u64) << 32)
}

/// The text of the description of a run.
pub open spec fn manifest_spec(
    run_id: nat,
    layers: nat,
    hidden: nat,
    experts: nat,
    k: nat,
    record: nat,
) -> Seq<char> {
    "{\n  \"format\": \"edge0-logan-trace-v1\",\n  \"run_id\": "@ + decimal(run_id)
        + ",\n  \"layers\": "@ + decimal(layers) + ",\n  \"hidden\": "@ + decimal(hidden)
        + ",\n  \"experts\": "@ + decimal(experts) + ",\n  \"k\": "@ + decimal(k)
        + ",\n  \"owners\": \""@ + decimal(TRAIN_OWNER_FIRST as nat) + ".."@ + decimal(
        TRAIN_OWNER_LAST as nat,
    ) + "\",\n  \"record_bytes\": "@ + decimal(record)
        + ",\n  \"target\": \"owner N token t -> consumer N+1 token t+1 native K"@ + decimal(k)
        + "\"\n}\n"@
}

/// The text of the description of a run.
pub fn write_manifest(
    run_id: u64,
    layers: usize,
    hidden: usize,
    experts: usize,
    k: usize,
    record: u32,
) -> (s: String)
    ensures
        s@ == manifest_spec(
            run_id as nat,
            layers as nat,
            hidden as nat,
            experts as nat,
            k as nat,
            record as nat,
        ),
{
    let mut s: String = String::from_str(
        "{\n  \"format\": \"edge0-logan-trace-v1\",\n  \"run_id\": ",
    );
    push_decimal(&mut s, run_id);
    s.append(",\n  \"layers\": ");
    push_decimal(&mut s, layers as u64);
    s.append(",\n  \"hidden\": ");
    push_decimal(&mut s, hidden as u64);
    s.append(",\n  \"experts\": ");
    push_decimal(&mut s, experts as u64);
    s.append(",\n  \"k\": ");
    push_decimal(&mut s, k as u64);
    s.append(",\n  \"owners\": \"");
    push_decimal(&mut s, TRAIN_OWNER_FIRST as u64);
    s.append("..");
    push_decimal(&mut s, TRAIN_OWNER_LAST as u64);
    s.append("\",\n  \"record_bytes\": ");
    push_decimal(&mut s, record as u64);
    s.append(",\n  \"target\": \"owner N token t -> consumer N+1 token t+1 native K");
    push_decimal(&mut s, k as u64);
    s.append("\"\n}\n");
    s
}

} // verus!
