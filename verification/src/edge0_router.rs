//! A predictor of the next layer's experts, one token ahead: its features, its ranking, and the
//! predictions that it hands from one token to the next.

use vstd::prelude::*;

use crate::floatbits::{f32_to_f16_bits, single_to_half};
use crate::fusion::RankedCandidate;
use crate::rank::{rank, ranked, ranking, Scored};
use crate::text::{chars_of, decimal, parse_spec, parse_unsigned, push_decimal};

verus! {

/// The first layer that takes a prediction.
pub const EDGE0_START_LAYER: usize = 7;

/// The first layer that makes one.
pub const EDGE0_OWNER_FIRST: usize = 6;

/// The last layer that makes one.
pub const EDGE0_OWNER_LAST: usize = 38;

/// The width of the hidden layer of a head.
pub const EDGE0_HEAD_HIDDEN: usize = 512;

/// The number of experts predicted where no setting gives another.
pub const DEFAULT_EDGE0_TOPK: usize = 4;

/// The pattern of the half one.
pub const HALF_ONE: u16 = 0x3c00;

/// Predicted experts from the best on, with the patterns of their shares.
#[derive(Clone, Debug)]
pub struct Edge0Prediction {
    pub experts: Vec<usize>,
    pub scores: Vec<u32>,
}

/// A prediction as a value.
pub struct PredictionView {
    pub experts: Seq<usize>,
    pub scores: Seq<u32>,
}

impl View for Edge0Prediction {
    type V = PredictionView;

    open spec fn view(&self) -> PredictionView {
        PredictionView { experts: self.experts@, scores: self.scores@ }
    }
}

/// A set of experts as ones among zeros.
pub open spec fn onehot(selected: Seq<usize>, experts: nat) -> Seq<u16> {
    Seq::new(
        experts,
        |e: int|
            if selected.contains(e as usize) {
                HALF_ONE
            } else {
                0u16
            },
    )
}

/// Appends a set of experts as ones among zeros.
pub fn append_onehot(dst: &mut Vec<u16>, selected: &Vec<usize>, experts: usize)
    requires
        old(dst).len() + experts <= usize::MAX,
    ensures
        final(dst)@ == old(dst)@ + onehot(selected@, experts as nat),
{
    let start: usize = dst.len();
    let mut k: usize = 0;
    while k < experts
        invariant
            k <= experts,
            start == old(dst).len(),
            dst@ == old(dst)@ + Seq::new(k as nat, |e: int| 0u16),
        decreases experts - k,
    {
        dst.push(0);
        k += 1;
        assert(dst@ =~= old(dst)@ + Seq::new(k as nat, |e: int| 0u16));
    }
    let mut i: usize = 0;
    assert(dst@ =~= old(dst)@ + onehot(selected@.take(0), experts as nat));
    while i < selected.len()
        invariant
            i <= selected.len(),
            start == old(dst).len(),
            start + experts <= usize::MAX,
            dst@ == old(dst)@ + onehot(selected@.take(i as int), experts as nat),
        decreases selected.len() - i,
    {
        let expert: usize = selected[i];
        let ghost before = selected@.take(i as int);
        let ghost after = selected@.take(i + 1);
        proof {
            assert(after =~= before.push(expert));
            assert forall|e: usize| after.contains(e) == (before.contains(e) || e == expert) by {
                if before.contains(e) {
                    let j = choose|j: int| 0 <= j < before.len() && before[j] == e;
                    assert(after[j] == e);
                }
                if e == expert {
                    assert(after[after.len() - 1] == e);
                }
            }
        }
        if expert < experts {
            dst[start + expert] = HALF_ONE;
        }
        i += 1;
        assert(dst@ =~= old(dst)@ + onehot(after, experts as nat));
    }
    assert(selected@.take(i as int) =~= selected@);
}

/// The scores of all experts as scored ids.
pub open spec fn enumerated(probs: Seq<u32>) -> Seq<Scored> {
    Seq::new(probs.len(), |i: int| (i as usize, probs[i]))
}

/// The `width` best experts, best first and lower id first among equals.
pub open spec fn top(probs: Seq<u32>, width: nat) -> Seq<Scored> {
    let all = ranked(enumerated(probs));
    if width < all.len() {
        all.take(width as int)
    } else {
        all
    }
}

/// Scored ids as candidates.
pub open spec fn as_candidates(list: Seq<Scored>) -> Seq<RankedCandidate> {
    list.map_values(|c: Scored| RankedCandidate { expert: c.0, score: c.1 })
}

/// The `width` best experts.
pub fn rank_by_score(probs: &Vec<u32>, width: usize) -> (out: Vec<RankedCandidate>)
    ensures
        out@ == as_candidates(top(probs@, width as nat)),
        out@.len() == (if width < probs@.len() {
            width as nat
        } else {
            probs@.len()
        }),
{
    let mut list: Vec<Scored> = Vec::new();
    let mut i: usize = 0;
    while i < probs.len()
        invariant
            i <= probs.len(),
            list.len() == i,
            forall|j: int| 0 <= j < i ==> #[trigger] list[j] == (j as usize, probs[j]),
        decreases probs.len() - i,
    {
        list.push((i, probs[i]));
        i += 1;
    }
    assert(list@ =~= enumerated(probs@));
    let all = rank(&list);
    let n: usize = if width < all.len() {
        width
    } else {
        all.len()
    };
    let mut out: Vec<RankedCandidate> = Vec::new();
    let mut k: usize = 0;
    while k < n
        invariant
            k <= n <= all.len(),
            out@ == as_candidates(all@.take(k as int)),
        decreases n - k,
    {
        out.push(RankedCandidate { expert: all[k].0, score: all[k].1 });
        k += 1;
        assert(out@ =~= as_candidates(all@.take(k as int)));
    }
    assert(all@.take(n as int) =~= top(probs@, width as nat));
    out
}

/// A wider ranking agrees with a narrower one on its first places.
pub proof fn law_wide_ranking_extends_narrow(probs: Seq<u32>, narrow: nat, wide: nat)
    requires
        narrow <= wide,
        narrow <= probs.len(),
    ensures
        top(probs, wide).take(narrow as int) == top(probs, narrow),
{
    let all = ranked(enumerated(probs));
    crate::rank::lemma_ranking_total();
    enumerated(probs).lemma_sort_by_ensures(ranking());
    assert(all.len() == probs.len()) by {
        vstd::seq_lib::to_multiset_len(all);
        vstd::seq_lib::to_multiset_len(enumerated(probs));
    }
    assert(top(probs, wide).take(narrow as int) =~= top(probs, narrow));
}

/// The singles of a list narrowed to halves.
pub open spec fn narrowed_all(bits: Seq<u32>) -> Seq<u16> {
    bits.map_values(|b: u32| single_to_half(b) as u16)
}

/// Appends singles narrowed to halves.
pub fn append_halves(out: &mut Vec<u16>, bits: &Vec<u32>)
    ensures
        final(out)@ == old(out)@ + narrowed_all(bits@),
{
    let mut i: usize = 0;
    assert(out@ =~= old(out)@ + narrowed_all(bits@.take(0)));
    while i < bits.len()
        invariant
            i <= bits.len(),
            out@ == old(out)@ + narrowed_all(bits@.take(i as int)),
        decreases bits.len() - i,
    {
        out.push(f32_to_f16_bits(bits[i]));
        i += 1;
        assert(out@ =~= old(out)@ + narrowed_all(bits@.take(i as int)));
    }
    assert(bits@.take(i as int) =~= bits@);
}

/// Why the predictor cannot be used.
#[derive(Clone, Copy, Debug, PartialEq, Eq, Structural)]
pub enum RouterFault {
    /// A model of another shape than the heads were trained for.
    Geometry { layers: usize, hidden: usize, experts: usize, moe_inter: usize },
    /// The setting of the number of experts is no number.
    NotANumber,
    /// The number of experts is zero or more than the model routes to.
    RouteK { k: usize, topk: usize },
    /// Features of another width.
    HiddenWidth { got: usize, want: usize },
    /// A layer without a head.
    MissingHead,
}

/// The number of predicted experts that a setting gives.
pub open spec fn route_k_spec(value: Option<&str>, topk: usize) -> Result<usize, RouterFault> {
    let k = match value {
        Some(v) => parse_spec(v@, usize::MAX as nat),
        None => Some(DEFAULT_EDGE0_TOPK as nat),
    };
    match k {
        None => Err(RouterFault::NotANumber),
        Some(k) => if k == 0 || k > topk {
            Err(RouterFault::RouteK { k: k as usize, topk })
        } else {
            Ok(k as usize)
        },
    }
}

/// The predictor's state as a value.
pub struct RouterView {
    pub layers: int,
    pub hidden: int,
    pub experts: int,
    pub heads: Seq<bool>,
    pub current: Seq<Option<PredictionView>>,
    pub next: Seq<Option<PredictionView>>,
    pub prev_executed: Seq<Seq<usize>>,
    pub token_generation: u64,
    pub route_k: int,
}

/// No prediction for any layer.
pub open spec fn no_predictions(layers: nat) -> Seq<Option<PredictionView>> {
    Seq::new(layers, |i: int| None)
}

impl RouterView {
    /// Every list has one place per layer, and owners have a layer behind them.
    pub open spec fn wf(self) -> bool {
        &&& self.layers > EDGE0_OWNER_LAST + 1
        &&& self.heads.len() == self.layers
        &&& self.current.len() == self.layers
        &&& self.next.len() == self.layers
        &&& self.prev_executed.len() == self.layers
        &&& 0 < self.route_k
    }

    /// The state after a token has ended: its predictions are the current ones now.
    pub open spec fn begin_token(self) -> RouterView {
        RouterView {
            current: self.next,
            next: no_predictions(self.current.len()),
            token_generation: if self.token_generation == u64::MAX {
                u64::MAX
            } else {
                (self.token_generation + 1) as u64
            },
            ..self
        }
    }

    /// The state with nothing predicted and nothing run.
    pub open spec fn reset(self) -> RouterView {
        RouterView {
            current: no_predictions(self.current.len()),
            next: no_predictions(self.next.len()),
            prev_executed: Seq::new(self.prev_executed.len(), |i: int| Seq::empty()),
            token_generation: 0,
            ..self
        }
    }

    /// The prediction for a layer, where it takes one and there is one.
    pub open spec fn prediction(self, consumer: int) -> Option<PredictionView> {
        if consumer < EDGE0_START_LAYER || consumer >= self.layers - 1 {
            None
        } else {
            self.current[consumer]
        }
    }

    /// Whether a layer makes predictions.
    pub open spec fn owns(self, owner: int) -> bool {
        EDGE0_OWNER_FIRST <= owner <= EDGE0_OWNER_LAST
    }

    /// The features of a layer: its input narrowed to halves, the experts that it ran, and those that
    /// it ran for the token before.
    pub open spec fn features(self, owner: int, hidden: Seq<u32>, executed: Seq<usize>) -> Result<
        Option<Seq<u16>>,
        RouterFault,
    > {
        if !self.owns(owner) {
            Ok(None)
        } else if hidden.len() != self.hidden {
            Err(
                RouterFault::HiddenWidth { got: hidden.len() as usize, want: self.hidden as usize },
            )
        } else if !self.heads[owner] {
            Err(RouterFault::MissingHead)
        } else {
            Ok(
                Some(
                    narrowed_all(hidden) + onehot(executed, self.experts as nat) + onehot(
                        self.prev_executed[owner],
                        self.experts as nat,
                    ),
                ),
            )
        }
    }

    /// How many experts are ranked where `max_candidates` are asked for.
    pub open spec fn width(self, max_candidates: int) -> int {
        let w = if max_candidates >= self.route_k {
            max_candidates
        } else {
            self.route_k
        };
        if w < self.experts {
            w
        } else {
            self.experts
        }
    }

    /// The state after a layer has predicted: the next layer's prediction for the next token, and what
    /// the layer ran.
    pub open spec fn predicted(
        self,
        owner: int,
        executed: Seq<usize>,
        probs: Seq<u32>,
        shares: Seq<u32>,
    ) -> RouterView {
        RouterView {
            next: self.next.update(
                owner + 1,
                Some(
                    PredictionView {
                        experts: crate::rank::ids_of(top(probs, self.route_k as nat)),
                        scores: shares,
                    },
                ),
            ),
            prev_executed: self.prev_executed.update(owner, executed),
            ..self
        }
    }
}

/// Predictions as values.
pub open spec fn predictions_view(v: Seq<Option<Edge0Prediction>>) -> Seq<Option<PredictionView>> {
    v.map_values(
        |p: Option<Edge0Prediction>|
            match p {
                Some(x) => Some(x@),
                None => None,
            },
    )
}

/// The predictor's state between tokens. `heads` says which layers have a head.
pub struct Edge0Router {
    pub layers: usize,
    pub hidden: usize,
    pub experts: usize,
    pub heads: Vec<bool>,
    pub current: Vec<Option<Edge0Prediction>>,
    pub next: Vec<Option<Edge0Prediction>>,
    pub prev_executed: Vec<Vec<usize>>,
    pub token_generation: u64,
    pub route_k: usize,
}

impl View for Edge0Router {
    type V = RouterView;

    open spec fn view(&self) -> RouterView {
        RouterView {
            layers: self.layers as int,
            hidden: self.hidden as int,
            experts: self.experts as int,
            heads: self.heads@,
            current: predictions_view(self.current@),
            next: predictions_view(self.next@),
            prev_executed: self.prev_executed@.map_values(|r: Vec<usize>| r@),
            token_generation: self.token_generation,
            route_k: self.route_k as int,
        }
    }
}

fn clear_predictions(v: &mut Vec<Option<Edge0Prediction>>)
    ensures
        predictions_view(final(v)@) == no_predictions(old(v)@.len()),
{
    let mut i: usize = 0;
    while i < v.len()
        invariant
            i <= v.len(),
            v.len() == old(v).len(),
            forall|j: int| 0 <= j < i ==> (#[trigger] v[j]) is None,
        decreases v.len() - i,
    {
        v[i] = None;
        i += 1;
    }
    assert(predictions_view(v@) =~= no_predictions(old(v)@.len()));
}

fn empty_predictions(n: usize) -> (v: Vec<Option<Edge0Prediction>>)
    ensures
        predictions_view(v@) == no_predictions(n as nat),
{
    let mut v: Vec<Option<Edge0Prediction>> = Vec::new();
    while v.len() < n
        invariant
            v.len() <= n,
            forall|j: int| 0 <= j < v.len() ==> (#[trigger] v[j]) is None,
        decreases n - v.len(),
    {
        v.push(None);
    }
    assert(predictions_view(v@) =~= no_predictions(n as nat));
    v
}

impl Edge0Router {
    /// A predictor for a model of the given shape, with heads on the layers that have them.
    pub fn load(
        layers: usize,
        hidden: usize,
        experts: usize,
        moe_inter: usize,
        topk: usize,
        k_setting: Option<&str>,
    ) -> (r: Result<Edge0Router, RouterFault>)
        ensures
            match r {
                Ok(s) => {
                    &&& layers == 40 && hidden == 2048 && experts == 256 && moe_inter == 512
                    &&& route_k_spec(k_setting, topk) == Ok::<usize, RouterFault>(s.route_k)
                    &&& s@.wf()
                    &&& s@ == (RouterView {
                        layers: 40,
                        hidden: 2048,
                        experts: 256,
                        heads: Seq::new(
                            40,
                            |i: int| EDGE0_OWNER_FIRST <= i <= EDGE0_OWNER_LAST,
                        ),
                        current: no_predictions(40),
                        next: no_predictions(40),
                        prev_executed: Seq::new(40, |i: int| Seq::empty()),
                        token_generation: 0,
                        route_k: s.route_k as int,
                    })
                },
                Err(f) => if layers != 40 || hidden != 2048 || experts != 256 || moe_inter != 512 {
                    f == (RouterFault::Geometry { layers, hidden, experts, moe_inter })
                } else {
                    route_k_spec(k_setting, topk) == Err::<usize, RouterFault>(f)
                },
            },
    {
        if layers != 40 || hidden != 2048 || experts != 256 || moe_inter != 512 {
            return Err(RouterFault::Geometry { layers, hidden, experts, moe_inter });
        }
        let route_k: usize = match k_setting {
            Some(v) => match parse_unsigned(&chars_of(v), usize::MAX as u64) {
                Some(n) => n as usize,
                None => {
                    return Err(RouterFault::NotANumber);
                },
            },
            None => DEFAULT_EDGE0_TOPK,
        };
        if route_k == 0 || route_k > topk {
            return Err(RouterFault::RouteK { k: route_k, topk });
        }
        let mut heads: Vec<bool> = Vec::new();
        let mut prev_executed: Vec<Vec<usize>> = Vec::new();
        while heads.len() < 40
            invariant
                heads.len() <= 40,
                prev_executed.len() == heads.len(),
                forall|i: int|
                    0 <= i < heads.len() ==> #[trigger] heads[i] == (EDGE0_OWNER_FIRST <= i
                        <= EDGE0_OWNER_LAST),
                forall|i: int|
                    0 <= i < heads.len() ==> (#[trigger] prev_executed[i])@ == Seq::<usize>::empty(),
            decreases 40 - heads.len(),
        {
            let owner: usize = heads.len();
            heads.push(EDGE0_OWNER_FIRST <= owner && owner <= EDGE0_OWNER_LAST);
            prev_executed.push(Vec::new());
        }
        let s = Edge0Router {
            layers,
            hidden,
            experts,
            heads,
            current: empty_predictions(40),
            next: empty_predictions(40),
            prev_executed,
            token_generation: 0,
            route_k,
        };
        assert(s@.heads =~= Seq::new(40, |i: int| EDGE0_OWNER_FIRST <= i <= EDGE0_OWNER_LAST));
        assert(s@.prev_executed =~= Seq::new(40, |i: int| Seq::empty()));
        Ok(s)
    }

    /// The number of predicted experts.
    pub fn route_k(&self) -> (k: usize)
        ensures
            k == self.route_k,
    {
        self.route_k
    }

    /// Begins a token: the predictions that the last one made become current.
    pub fn begin_token(&mut self)
        ensures
            final(self)@ == old(self)@.begin_token(),
            old(self)@.wf() ==> final(self)@.wf(),
    {
        std::mem::swap(&mut self.current, &mut self.next);
        clear_predictions(&mut self.next);
        self.token_generation = self.token_generation.saturating_add(1);
    }

    /// Forgets everything.
    pub fn reset(&mut self)
        ensures
            final(self)@ == old(self)@.reset(),
            old(self)@.wf() ==> final(self)@.wf(),
    {
        clear_predictions(&mut self.current);
        clear_predictions(&mut self.next);
        let mut i: usize = 0;
        while i < self.prev_executed.len()
            invariant
                i <= self.prev_executed.len(),
                self.prev_executed.len() == old(self).prev_executed.len(),
                forall|j: int|
                    0 <= j < i ==> (#[trigger] self.prev_executed[j])@ == Seq::<usize>::empty(),
                self.layers == old(self).layers,
                self.hidden == old(self).hidden,
                self.experts == old(self).experts,
                self.heads == old(self).heads,
                self.route_k == old(self).route_k,
                predictions_view(self.current@) == no_predictions(old(self).current@.len()),
                predictions_view(self.next@) == no_predictions(old(self).next@.len()),
            decreases self.prev_executed.len() - i,
        {
            self.prev_executed[i].clear();
            i += 1;
        }
        self.token_generation = 0;
        assert(self@.prev_executed =~= old(self)@.reset().prev_executed);
    }

    /// The prediction for a layer.
    pub fn prediction(&self, consumer: usize) -> (r: Option<&Edge0Prediction>)
        requires
            self@.wf(),
        ensures
            match r {
                Some(p) => self@.prediction(consumer as int) == Some(p@),
                None => self@.prediction(consumer as int) is None,
            },
    {
        if consumer < EDGE0_START_LAYER || consumer >= self.layers - 1 {
            return None;
        }
        assert(self@.current.len() == self.current.len());
        assert(self@.current[consumer as int] == (match self.current[consumer as int] {
            Some(x) => Some(x@),
            None => None,
        }));
        match &self.current[consumer] {
            Some(p) => Some(p),
            None => None,
        }
    }

    /// The features from which a layer's head predicts, or nothing for a layer that does not predict.
    pub fn features(&self, owner: usize, hidden: &Vec<u32>, executed: &Vec<usize>) -> (r: Result<
        Option<Vec<u16>>,
        RouterFault,
    >)
        requires
            self@.wf(),
            self.hidden + 2 * self.experts <= usize::MAX,
        ensures
            match r {
                Ok(Some(f)) => self@.features(owner as int, hidden@, executed@) == Ok::<
                    Option<Seq<u16>>,
                    RouterFault,
                >(Some(f@)) && f@.len() == self.hidden + 2 * self.experts,
                Ok(None) => self@.features(owner as int, hidden@, executed@) == Ok::<
                    Option<Seq<u16>>,
                    RouterFault,
                >(None),
                Err(e) => self@.features(owner as int, hidden@, executed@) == Err::<
                    Option<Seq<u16>>,
                    RouterFault,
                >(e),
            },
    {
        if owner < EDGE0_OWNER_FIRST || owner > EDGE0_OWNER_LAST {
            return Ok(None);
        }
        if hidden.len() != self.hidden {
            return Err(RouterFault::HiddenWidth { got: hidden.len(), want: self.hidden });
        }
        if !self.heads[owner] {
            return Err(RouterFault::MissingHead);
        }
        assert(self@.prev_executed.len() == self.prev_executed.len());
        let mut f: Vec<u16> = Vec::new();
        append_halves(&mut f, hidden);
        append_onehot(&mut f, executed, self.experts);
        append_onehot(&mut f, &self.prev_executed[owner], self.experts);
        assert(self@.prev_executed[owner as int] == self.prev_executed[owner as int]@);
        assert(f@ =~= narrowed_all(hidden@) + onehot(executed@, self.experts as nat) + onehot(
            self.prev_executed[owner as int]@,
            self.experts as nat,
        ));
        Ok(Some(f))
    }

    /// Takes over what a layer's head predicted: `probs` are the patterns of the experts' shares, and
    /// `shares` those of the predicted experts scaled to one. Gives the layer that the prediction is
    /// for, and the best experts.
    pub fn predict_next_ranked(
        &mut self,
        owner: usize,
        executed: &Vec<usize>,
        probs: &Vec<u32>,
        shares: Vec<u32>,
        max_candidates: usize,
    ) -> (r: (usize, Vec<RankedCandidate>))
        requires
            old(self)@.wf(),
            old(self)@.owns(owner as int),
            probs.len() == old(self).experts,
        ensures
            r.0 == owner + 1,
            r.1@ == as_candidates(
                top(probs@, old(self)@.width(max_candidates as int) as nat),
            ),
            final(self)@ == old(self)@.predicted(owner as int, executed@, probs@, shares@),
            final(self)@.wf(),
    {
        let wide: usize = if max_candidates >= self.route_k {
            max_candidates
        } else {
            self.route_k
        };
        let width: usize = if wide < self.experts {
            wide
        } else {
            self.experts
        };
        let ranked = rank_by_score(probs, width);
        let chosen = rank_by_score(probs, self.route_k);
        let mut experts: Vec<usize> = Vec::new();
        let mut i: usize = 0;
        while i < chosen.len()
            invariant
                i <= chosen.len(),
                experts.len() == i,
                forall|j: int| 0 <= j < i ==> #[trigger] experts[j] == chosen[j].expert,
            decreases chosen.len() - i,
        {
            experts.push(chosen[i].expert);
            i += 1;
        }
        assert(experts@ =~= crate::rank::ids_of(top(probs@, self.route_k as nat)));
        let consumer: usize = owner + 1;
        let ghost view = PredictionView { experts: experts@, scores: shares@ };
        assert(self@.next.len() == self.next.len());
        assert(self@.prev_executed.len() == self.prev_executed.len());
        self.next[consumer] = Some(Edge0Prediction { experts, scores: shares });
        let route: Vec<usize> = executed.clone();
        assert(route@ =~= executed@);
        self.prev_executed[owner] = route;
        assert(self@.next =~= old(self)@.next.update(consumer as int, Some(view)));
        assert(self@.prev_executed =~= old(self)@.prev_executed.update(owner as int, executed@));
        (consumer, ranked)
    }
}

/// A prediction made during one token is the current one of the layer behind during the next, and of
/// no later token unless it is made again.
pub proof fn law_prediction_lasts_one_token(
    s: RouterView,
    owner: int,
    executed: Seq<usize>,
    probs: Seq<u32>,
    shares: Seq<u32>,
)
    requires
        s.wf(),
        s.owns(owner),
        owner + 1 < s.layers - 1,
    ensures
        ({
            let next = s.predicted(owner, executed, probs, shares).begin_token();
            &&& next.prediction(owner + 1) == Some(
                PredictionView {
                    experts: crate::rank::ids_of(top(probs, s.route_k as nat)),
                    scores: shares,
                },
            )
            &&& next.begin_token().prediction(owner + 1) is None
        }),
{
}

/// A prediction made now changes nothing of what the current token sees.
pub proof fn law_prediction_is_for_the_next_token(
    s: RouterView,
    owner: int,
    executed: Seq<usize>,
    probs: Seq<u32>,
    shares: Seq<u32>,
    consumer: int,
)
    requires
        s.wf(),
        s.owns(owner),
    ensures
        s.predicted(owner, executed, probs, shares).prediction(consumer) == s.prediction(consumer),
{
}

/// Where the weights of the predictor are.
#[derive(Clone, Copy, Debug, PartialEq, Eq, Structural)]
pub enum WeightsAt {
    /// Where the setting says.
    Setting,
    /// Beside the directory of the model.
    Beside,
    /// In the directory of the model.
    Inside,
}

/// Why the weights of the predictor are not found.
#[derive(Clone, Copy, Debug, PartialEq, Eq, Structural)]
pub enum WeightsFault {
    /// The setting names no file.
    SettingMissing,
    /// Neither beside nor in the directory of the model.
    NotFound,
}

/// Picks where the weights are read from. Each place is given as whether a file is there: `setting`
/// where the setting is set, `beside` and `inside` where the model has such a place.
pub fn resolve_weights_path(setting: Option<bool>, beside: Option<bool>, inside: Option<bool>) -> (r:
    Result<WeightsAt, WeightsFault>)
    ensures
        r == (if setting == Some(true) {
            Ok(WeightsAt::Setting)
        } else if setting == Some(false) {
            Err(WeightsFault::SettingMissing)
        } else if beside == Some(true) {
            Ok(WeightsAt::Beside)
        } else if inside == Some(true) {
            Ok(WeightsAt::Inside)
        } else {
            Err(WeightsFault::NotFound)
        }),
{
    match setting {
        Some(true) => {
            return Ok(WeightsAt::Setting);
        },
        Some(false) => {
            return Err(WeightsFault::SettingMissing);
        },
        None => {},
    }
    match beside {
        Some(true) => {
            return Ok(WeightsAt::Beside);
        },
        _ => {},
    }
    match inside {
        Some(true) => Ok(WeightsAt::Inside),
        _ => Err(WeightsFault::NotFound),
    }
}

/// The matrices of a head: of the hidden layer, of what reads it out, and of the part that is
/// linear in the features.
#[derive(Clone, Copy, Debug, PartialEq, Eq, Structural)]
pub enum HeadPart {
    First,
    Second,
    Linear,
}

impl HeadPart {
    /// What the name of the matrix ends in.
    pub open spec fn ending(self) -> Seq<char> {
        match self {
            HeadPart::First => ".fc1.weight"@,
            HeadPart::Second => ".fc2.weight"@,
            HeadPart::Linear => ".linear_init.weight"@,
        }
    }

    /// The name of the matrix of a layer.
    pub open spec fn name(self, owner: nat) -> Seq<char> {
        "layers."@ + decimal(owner) + self.ending()
    }

    /// Its rows and columns, in a model of this width with as many experts.
    pub open spec fn shape(self, hidden: int, experts: int) -> (int, int) {
        match self {
            HeadPart::First => (EDGE0_HEAD_HIDDEN as int, hidden + 2 * experts),
            HeadPart::Second => (experts, EDGE0_HEAD_HIDDEN as int),
            HeadPart::Linear => (experts, hidden + 2 * experts),
        }
    }
}

/// The name and the shape under which a matrix of a head is read.
pub fn head_tensor(part: HeadPart, owner: usize, hidden: usize, experts: usize) -> (r: (
    String,
    [u64; 2],
))
    requires
        hidden + 2 * experts <= usize::MAX,
    ensures
        r.0@ == part.name(owner as nat),
        (r.1@[0] as int, r.1@[1] as int) == part.shape(hidden as int, experts as int),
{
    let mut name: String = String::from_str("layers.");
    push_decimal(&mut name, owner as u64);
    let width: u64 = (hidden + 2 * experts) as u64;
    let (ending, shape): (&str, [u64; 2]) = match part {
        HeadPart::First => (".fc1.weight", [EDGE0_HEAD_HIDDEN as u64, width]),
        HeadPart::Second => (".fc2.weight", [experts as u64, EDGE0_HEAD_HIDDEN as u64]),
        HeadPart::Linear => (".linear_init.weight", [experts as u64, width]),
    };
    name.append(ending);
    (name, shape)
}

/// The features of a head: the state, narrowed, then a mark for every expert that ran here just now, then
/// one for every expert that ran here before.
pub proof fn law_features_are_the_state_and_two_routes(
    s: RouterView,
    owner: int,
    hidden: Seq<u32>,
    executed: Seq<usize>,
    f: Seq<u16>,
    e: int,
    i: int,
)
    requires
        s.features(owner, hidden, executed) == Ok::<Option<Seq<u16>>, RouterFault>(Some(f)),
        0 <= e < s.experts <= usize::MAX,
        0 <= i < s.hidden,
    ensures
        f.len() == s.hidden + s.experts + s.experts,
        hidden.len() == s.hidden,
        f[i] == single_to_half(hidden[i]) as u16,
        f[s.hidden + e] == (if executed.contains(e as usize) {
            0x3c00u16
        } else {
            0
        }),
        f[s.hidden + s.experts + e] == (if s.prev_executed[owner].contains(e as usize) {
            0x3c00u16
        } else {
            0
        }),
{
}

/// Layers six to thirty-eight predict, each for the layer behind it; a prediction is asked for from layer
/// seven on and never by the last.
pub proof fn law_which_layers_predict(s: RouterView, layer: int)
    ensures
        s.owns(layer) <==> 6 <= layer <= 38,
        layer < 7 || layer + 1 >= s.layers ==> s.prediction(layer) is None,
        7 <= layer && layer + 1 < s.layers ==> s.prediction(layer) == s.current[layer],
{
}

/// A prediction lists the best experts there are, as many as a route has, and is kept for the layer behind
/// the one that made it and for no other; what ran is remembered for the layer that made it.
pub proof fn law_a_prediction_is_for_the_layer_behind(
    s: RouterView,
    owner: int,
    executed: Seq<usize>,
    probs: Seq<u32>,
    shares: Seq<u32>,
    l: int,
)
    requires
        s.wf(),
        s.owns(owner),
        0 <= l < s.layers,
        s.route_k <= probs.len(),
    ensures
        ({
            let t = s.predicted(owner, executed, probs, shares);
            &&& l != owner + 1 ==> t.next[l] == s.next[l]
            &&& l != owner ==> t.prev_executed[l] == s.prev_executed[l]
            &&& t.prev_executed[owner] == executed
            &&& t.next[owner + 1] is Some
            &&& (t.next[owner + 1]->0).experts == crate::rank::ids_of(ranked(enumerated(probs))).take(s.route_k)
            &&& (t.next[owner + 1]->0).scores == shares
            &&& t.current == s.current
        }),
{
    let all = ranked(enumerated(probs));
    enumerated(probs).lemma_sort_by_ensures(crate::rank::ranking());
    crate::rank::lemma_ranking_total();
    all.to_multiset_ensures();
    enumerated(probs).to_multiset_ensures();
    assert(all.len() == probs.len());
    assert(crate::rank::ids_of(top(probs, s.route_k as nat)) =~= crate::rank::ids_of(all).take(s.route_k));
}

/// As many candidates are ranked as are asked for, at least as many as a route has and at most as many as
/// there are experts.
pub proof fn law_how_many_candidates_are_ranked(s: RouterView, asked: int)
    requires
        0 <= s.route_k <= s.experts,
    ensures
        s.route_k <= s.width(asked) <= s.experts,
        s.route_k <= asked <= s.experts ==> s.width(asked) == asked,
{
}

/// Before a ranking every expert stands with its own probability, and a ranking takes none twice.
pub proof fn law_every_expert_is_ranked_with_its_own(probs: Seq<u32>, i: int)
    requires
        0 <= i < probs.len() <= usize::MAX,
    ensures
        enumerated(probs).len() == probs.len(),
        enumerated(probs)[i].0 == i,
        enumerated(probs)[i].1 == probs[i],
        ranked(enumerated(probs)).to_multiset() == enumerated(probs).to_multiset(),
{
    crate::rank::lemma_ranking_total();
    enumerated(probs).lemma_sort_by_ensures(crate::rank::ranking());
}

/// A head has a matrix into its hidden width from the state and two routes, one from there to the experts,
/// and one straight to them.
pub proof fn law_the_matrices_of_a_head_fit_together(hidden: int, experts: int)
    ensures
        HeadPart::First.shape(hidden, experts) == (512int, hidden + experts + experts),
        HeadPart::Second.shape(hidden, experts) == (experts, 512int),
        HeadPart::Linear.shape(hidden, experts) == (experts, hidden + experts + experts),
        HeadPart::First.shape(hidden, experts).0 == HeadPart::Second.shape(hidden, experts).1,
{
}

} // verus!
