//! The way of a token through a model, part by part. A token may stop where experts are missing and
//! go on once they are there.

use vstd::prelude::*;

use crate::config::Cfg;
use crate::runtime::{
    law_attention_comes_before_the_experts, layer_parts, parts_of, tail_of, tail_parts, LayerPart,
    TailPart,
};
use crate::sched::{resumed, Scheduler, TokenPause};

verus! {

/// A part of the way of a token.
#[derive(Clone, Copy, Debug, PartialEq, Eq, Structural)]
pub enum TokenPart {
    /// Look the token up, and remember it as the last one.
    Begin,
    /// A part of a layer.
    Layer { layer: usize, part: LayerPart },
    /// What comes behind the last layer.
    Tail(TailPart),
}

/// The parts of layer `l`.
pub open spec fn parts_in(c: Cfg, l: int) -> Seq<TokenPart> {
    parts_of(c.hc_count as int, c.gdn_layers@[l], c.qsa_layers@[l], c.ple_layer == l).map_values(
        |p: LayerPart| TokenPart::Layer { layer: l as usize, part: p },
    )
}

/// The parts of the first `n` layers.
pub open spec fn parts_upto(c: Cfg, n: int) -> Seq<TokenPart>
    decreases n,
{
    if n <= 0 {
        Seq::empty()
    } else {
        parts_upto(c, n - 1) + parts_in(c, n - 1)
    }
}

/// The whole way: what comes behind the last layer is left out where no scores are wanted.
pub open spec fn way_of(c: Cfg, has_norm: bool, wanted: bool) -> Seq<TokenPart> {
    seq![TokenPart::Begin] + parts_upto(c, c.layers as int) + (if wanted {
        tail_of(c.hc_count as int, has_norm).map_values(|p: TailPart| TokenPart::Tail(p))
    } else {
        Seq::empty()
    })
}

/// Where on the way the experts of layer `l` are asked.
pub open spec fn experts_of(c: Cfg, l: int) -> int {
    1 + parts_upto(c, l).len() + parts_in(c, l).len() - 2
}

/// Whether a part asks experts.
pub open spec fn asks_experts(p: TokenPart) -> bool {
    match p {
        TokenPart::Layer { part, .. } => part is Experts,
        _ => false,
    }
}

/// The parts of earlier layers come first.
proof fn lemma_upto_grows(c: Cfg, a: int, b: int)
    requires
        0 <= a <= b,
    ensures
        parts_upto(c, a).len() <= parts_upto(c, b).len(),
        parts_upto(c, b).take(parts_upto(c, a).len() as int) == parts_upto(c, a),
    decreases b,
{
    if a < b {
        lemma_upto_grows(c, a, b - 1);
        let (s, t, u) = (parts_upto(c, a), parts_upto(c, b - 1), parts_upto(c, b));
        assert(u.take(s.len() as int) =~= t.take(s.len() as int));
    } else {
        assert(parts_upto(c, b).take(parts_upto(c, a).len() as int) =~= parts_upto(c, a));
    }
}

/// Experts are asked in one place of a layer.
proof fn lemma_in_layer(c: Cfg, l: int, i: int)
    requires
        0 <= i < parts_in(c, l).len(),
        0 <= l <= usize::MAX,
    ensures
        parts_in(c, l).len() >= 6,
        parts_in(c, l)[i] matches TokenPart::Layer { layer, .. } && layer == l,
        asks_experts(parts_in(c, l)[i]) <==> i == parts_in(c, l).len() - 2,
{
    let (g, q, m) = (c.gdn_layers@[l], c.qsa_layers@[l], c.ple_layer == l);
    law_attention_comes_before_the_experts(c.hc_count as int, g, q, m);
    let p = parts_of(c.hc_count as int, g, q, m);
    assert(parts_in(c, l)[i] == (TokenPart::Layer { layer: l as usize, part: p[i] }));
}

/// Experts are asked in one place of every layer and nowhere else.
proof fn lemma_upto(c: Cfg, n: int, i: int)
    requires
        0 <= n <= usize::MAX,
        0 <= i < parts_upto(c, n).len(),
    ensures
        parts_upto(c, n)[i] matches TokenPart::Layer { layer, .. } && layer < n && (asks_experts(
            parts_upto(c, n)[i],
        ) <==> 1 + i == experts_of(c, layer as int)),
    decreases n,
{
    let before = parts_upto(c, n - 1);
    if i < before.len() {
        lemma_upto(c, n - 1, i);
        assert(parts_upto(c, n)[i] == before[i]);
    } else {
        lemma_in_layer(c, n - 1, i - before.len());
        assert(parts_upto(c, n)[i] == parts_in(c, n - 1)[i - before.len()]);
    }
}

/// Experts are asked once in every layer, in the place that [`experts_of`] says, and nowhere else.
pub proof fn law_every_layer_asks_its_experts_once(c: Cfg, has_norm: bool, wanted: bool, i: int)
    requires
        0 <= i < way_of(c, has_norm, wanted).len(),
    ensures
        asks_experts(way_of(c, has_norm, wanted)[i]) <==> exists|l: int|
            0 <= l < c.layers && i == #[trigger] experts_of(c, l),
        forall|l: int|
            0 <= l < c.layers && i == #[trigger] experts_of(c, l) ==> way_of(c, has_norm, wanted)[i]
                == (TokenPart::Layer { layer: l as usize, part: LayerPart::Experts }),
{
    let way = way_of(c, has_norm, wanted);
    let all = parts_upto(c, c.layers as int);
    assert forall|l: int| 0 <= l < c.layers && i == #[trigger] experts_of(c, l) implies way[i] == (
    TokenPart::Layer { layer: l as usize, part: LayerPart::Experts }) by {
        let (before, here) = (parts_upto(c, l), parts_in(c, l));
        let (g, q, m) = (c.gdn_layers@[l], c.qsa_layers@[l], c.ple_layer == l);
        law_attention_comes_before_the_experts(c.hc_count as int, g, q, m);
        let p = parts_of(c.hc_count as int, g, q, m);
        assert(here.len() == p.len());
        lemma_upto_grows(c, l + 1, c.layers as int);
        let k = i - 1;
        assert(parts_upto(c, l + 1) == before + here);
        assert(all[k] == all.take((before + here).len() as int)[k]);
        assert((before + here)[k] == here[k - before.len()]);
        assert(here[here.len() - 2] == (TokenPart::Layer {
            layer: l as usize,
            part: p[p.len() - 2],
        }));
        assert(way[i] == all[k]);
    }
    if asks_experts(way[i]) {
        if 1 <= i <= all.len() {
            assert(way[i] == all[i - 1]);
            lemma_upto(c, c.layers as int, i - 1);
            let l = all[i - 1]->layer as int;
            assert(i == experts_of(c, l));
        }
    }
}

/// The whole way of a token.
pub fn token_parts(c: &Cfg, has_norm: bool, wanted: bool) -> (r: Vec<TokenPart>)
    requires
        c.gdn_layers@.len() == c.layers,
        c.qsa_layers@.len() == c.layers,
    ensures
        r@ == way_of(*c, has_norm, wanted),
{
    let mut r: Vec<TokenPart> = Vec::new();
    r.push(TokenPart::Begin);
    let mut l: usize = 0;
    assert(r@ =~= seq![TokenPart::Begin] + parts_upto(*c, 0));
    while l < c.layers
        invariant
            l <= c.layers,
            c.gdn_layers@.len() == c.layers,
            c.qsa_layers@.len() == c.layers,
            r@ == seq![TokenPart::Begin] + parts_upto(*c, l as int),
        decreases c.layers - l,
    {
        let memory: bool = c.ple_layer >= 0 && c.ple_layer as u64 == l as u64;
        let parts: Vec<LayerPart> = layer_parts(
            c.hc_count,
            c.gdn_layers[l],
            c.qsa_layers[l],
            memory,
        );
        let ghost here = parts_in(*c, l as int);
        let ghost before = r@;
        let mut i: usize = 0;
        assert(here.take(0) =~= Seq::<TokenPart>::empty());
        assert(r@ =~= before + here.take(0));
        while i < parts.len()
            invariant
                i <= parts.len(),
                here.len() == parts.len(),
                forall|k: int|
                    0 <= k < parts.len() ==> #[trigger] here[k] == (TokenPart::Layer {
                        layer: l,
                        part: parts@[k],
                    }),
                r@ == before + here.take(i as int),
            decreases parts.len() - i,
        {
            r.push(TokenPart::Layer { layer: l, part: parts[i] });
            assert(here.take(i + 1) =~= here.take(i as int).push(here[i as int]));
            i += 1;
            assert(r@ =~= before + here.take(i as int));
        }
        assert(here.take(parts.len() as int) =~= here);
        assert(r@ =~= seq![TokenPart::Begin] + parts_upto(*c, l + 1));
        l += 1;
    }
    let ghost upto = r@;
    if wanted {
        let tail: Vec<TailPart> = tail_parts(c.hc_count, has_norm);
        let ghost rest = tail_of(c.hc_count as int, has_norm).map_values(
            |p: TailPart| TokenPart::Tail(p),
        );
        let mut i: usize = 0;
        assert(rest.take(0) =~= Seq::<TokenPart>::empty());
        assert(r@ =~= upto + rest.take(0));
        while i < tail.len()
            invariant
                i <= tail.len(),
                rest.len() == tail.len(),
                forall|k: int| 0 <= k < tail.len() ==> #[trigger] rest[k] == TokenPart::Tail(tail@[k]),
                r@ == upto + rest.take(i as int),
            decreases tail.len() - i,
        {
            r.push(TokenPart::Tail(tail[i]));
            assert(rest.take(i + 1) =~= rest.take(i as int).push(rest[i as int]));
            i += 1;
            assert(r@ =~= upto + rest.take(i as int));
        }
        assert(rest.take(tail.len() as int) =~= rest);
    }
    assert(r@ =~= way_of(*c, has_norm, wanted));
    r
}

/// What happens to a token on its way.
#[derive(Clone, Copy, Debug, PartialEq, Eq, Structural)]
pub enum TokenEvent {
    /// A part was carried out.
    Ran,
    /// A part could not be carried out for want of experts.
    HeldUp,
    /// The experts are there.
    Resumed,
}

/// Where a token is on its way.
pub struct RunView {
    pub way: Seq<TokenPart>,
    pub at: int,
    pub stopped: bool,
}

impl RunView {
    /// The token is on the way or at its end, and stops only where experts are asked.
    pub open spec fn wf(self) -> bool {
        &&& 0 <= self.at <= self.way.len()
        &&& self.stopped ==> self.at < self.way.len() && asks_experts(self.way[self.at])
    }

    /// The part to be carried out now.
    pub open spec fn next(self) -> Option<TokenPart> {
        if self.stopped || self.at >= self.way.len() {
            None
        } else {
            Some(self.way[self.at])
        }
    }

    /// The token after an event. A token is held up only where experts are asked, and what happens
    /// to one that has nothing to do changes nothing.
    pub open spec fn after(self, e: TokenEvent) -> RunView {
        match e {
            TokenEvent::Ran => if self.next() is Some {
                RunView { at: self.at + 1, ..self }
            } else {
                self
            },
            TokenEvent::HeldUp => if self.next() is Some && asks_experts(self.next()->0) {
                RunView { stopped: true, ..self }
            } else {
                self
            },
            TokenEvent::Resumed => RunView { stopped: false, ..self },
        }
    }
}

/// A token on its way.
pub struct TokenRun {
    pub way: Vec<TokenPart>,
    pub at: usize,
    pub stopped: bool,
}

impl View for TokenRun {
    type V = RunView;

    open spec fn view(&self) -> RunView {
        RunView { way: self.way@, at: self.at as int, stopped: self.stopped }
    }
}

impl TokenRun {
    /// A token at the beginning of its way.
    pub fn new(c: &Cfg, has_norm: bool, wanted: bool) -> (r: TokenRun)
        requires
            c.gdn_layers@.len() == c.layers,
            c.qsa_layers@.len() == c.layers,
        ensures
            r@ == (RunView { way: way_of(*c, has_norm, wanted), at: 0, stopped: false }),
            r@.wf(),
    {
        TokenRun { way: token_parts(c, has_norm, wanted), at: 0, stopped: false }
    }

    /// A token whose scores are wanted, in front of the experts of a layer.
    pub fn at_experts(c: &Cfg, has_norm: bool, layer: usize) -> (r: TokenRun)
        requires
            c.gdn_layers@.len() == c.layers,
            c.qsa_layers@.len() == c.layers,
            layer < c.layers,
        ensures
            r@ == (RunView {
                way: way_of(*c, has_norm, true),
                at: experts_of(*c, layer as int),
                stopped: false,
            }),
            r@.wf(),
    {
        let way: Vec<TokenPart> = token_parts(c, has_norm, true);
        let wanted: TokenPart = TokenPart::Layer { layer, part: LayerPart::Experts };
        let ghost place = experts_of(*c, layer as int);
        proof {
            lemma_upto_grows(*c, layer + 1, c.layers as int);
            lemma_in_layer(*c, layer as int, 0);
            assert(parts_upto(*c, layer + 1).len() == parts_upto(*c, layer as int).len() + parts_in(
                *c,
                layer as int,
            ).len());
            assert(0 <= place < way@.len());
            law_every_layer_asks_its_experts_once(*c, has_norm, true, place);
            assert(way@[place] == wanted);
        }
        let mut i: usize = 0;
        while i < way.len()
            invariant
                i <= place,
                place < way.len(),
                way@ == way_of(*c, has_norm, true),
                way@[place] == wanted,
                place == experts_of(*c, layer as int),
                wanted == (TokenPart::Layer { layer, part: LayerPart::Experts }),
                layer < c.layers,
            decreases way.len() - i,
        {
            if way[i] == wanted {
                proof {
                    law_every_layer_asks_its_experts_once(*c, has_norm, true, i as int);
                    let l = choose|l: int| 0 <= l < c.layers && i == #[trigger] experts_of(*c, l);
                    assert(l == layer);
                }
                return TokenRun { way, at: i, stopped: false };
            }
            i += 1;
        }
        TokenRun { way, at: i, stopped: false }
    }

    /// The part to be carried out now; none where the token has stopped or is through.
    pub fn next(&self) -> (r: Option<TokenPart>)
        requires
            self@.wf(),
        ensures
            r == self@.next(),
    {
        if self.stopped || self.at >= self.way.len() {
            None
        } else {
            Some(self.way[self.at])
        }
    }

    /// Goes on after an event.
    pub fn step(&mut self, e: TokenEvent)
        requires
            old(self)@.wf(),
        ensures
            final(self)@ == old(self)@.after(e),
            final(self)@.wf(),
    {
        match e {
            TokenEvent::Ran => {
                if !self.stopped && self.at < self.way.len() {
                    self.at = self.at + 1;
                }
            },
            TokenEvent::HeldUp => {
                if !self.stopped && self.at < self.way.len() {
                    if let TokenPart::Layer { part: LayerPart::Experts, .. } = self.way[self.at] {
                        self.stopped = true;
                    }
                }
            },
            TokenEvent::Resumed => {
                self.stopped = false;
            },
        }
    }
}

/// Where a token is after events.
pub open spec fn after_all(r: RunView, events: Seq<TokenEvent>) -> RunView
    decreases events.len(),
{
    if events.len() == 0 {
        r
    } else {
        after_all(r, events.drop_last()).after(events.last())
    }
}

/// The parts that were carried out while events happened.
pub open spec fn carried_out(r: RunView, events: Seq<TokenEvent>) -> Seq<TokenPart>
    decreases events.len(),
{
    if events.len() == 0 {
        Seq::empty()
    } else {
        let before = carried_out(r, events.drop_last());
        let at = after_all(r, events.drop_last());
        if events.last() is Ran && at.next() is Some {
            before.push(at.next()->0)
        } else {
            before
        }
    }
}

/// However often a token stops, what is carried out is its way, every part once and in order.
pub proof fn law_a_pause_changes_nothing(way: Seq<TokenPart>, events: Seq<TokenEvent>)
    ensures
        ({
            let start = RunView { way, at: 0, stopped: false };
            let end = after_all(start, events);
            &&& end.wf()
            &&& end.way == way
            &&& carried_out(start, events) == way.take(end.at)
        }),
    decreases events.len(),
{
    let start = RunView { way, at: 0, stopped: false };
    if events.len() > 0 {
        law_a_pause_changes_nothing(way, events.drop_last());
        let at = after_all(start, events.drop_last());
        if events.last() is Ran && at.next() is Some {
            assert(way.take(at.at + 1) =~= way.take(at.at).push(way[at.at]));
        }
    } else {
        assert(way.take(0) =~= Seq::<TokenPart>::empty());
    }
}

/// A token that stopped in a layer is found again in the place where it stopped.
pub proof fn law_a_stopped_token_is_found_again(c: Cfg, has_norm: bool, events: Seq<TokenEvent>)
    ensures
        ({
            let start = RunView { way: way_of(c, has_norm, true), at: 0, stopped: false };
            let end = after_all(start, events);
            end.stopped ==> exists|l: int|
                0 <= l < c.layers && end.at == #[trigger] experts_of(c, l) && end.way[end.at] == (
                TokenPart::Layer { layer: l as usize, part: LayerPart::Experts })
        }),
{
    let way = way_of(c, has_norm, true);
    law_a_pause_changes_nothing(way, events);
    let end = after_all(RunView { way, at: 0, stopped: false }, events);
    if end.stopped {
        law_every_layer_asks_its_experts_once(c, has_norm, true, end.at);
    }
}

/// Takes up the token that has stopped, if it is this one, in front of the experts it stopped for;
/// begins anew with any other.
pub fn forward_scheduled<T>(
    s: &mut Scheduler<T>,
    c: &Cfg,
    has_norm: bool,
    token: usize,
    pos: usize,
) -> (r: (TokenRun, Option<TokenPause<T>>))
    requires
        c.gdn_layers@.len() == c.layers,
        c.qsa_layers@.len() == c.layers,
        old(s).pause matches Some(p) ==> p.layer < c.layers,
    ensures
        final(s).pause is None,
        final(s).mode == old(s).mode,
        final(s).blocked == old(s).blocked,
        r.1 == resumed(*old(s), token, pos),
        r.0@ == (RunView {
            way: way_of(*c, has_norm, true),
            at: match resumed(*old(s), token, pos) {
                Some(p) => experts_of(*c, p.layer as int),
                None => 0,
            },
            stopped: false,
        }),
        r.0@.wf(),
{
    match s.resume(token, pos) {
        Some(p) => {
            let run: TokenRun = TokenRun::at_experts(c, has_norm, p.layer);
            (run, Some(p))
        },
        None => (TokenRun::new(c, has_norm, true), None),
    }
}

/// A token begins by being looked up, goes through the layers in their order, and is scored last, where
/// scores are wanted.
pub proof fn law_layers_come_in_order(c: Cfg, has_norm: bool, wanted: bool, i: int, j: int)
    requires
        0 <= i < j < way_of(c, has_norm, wanted).len(),
    ensures
        ({
            let way = way_of(c, has_norm, wanted);
            &&& way[0] is Begin
            &&& !(way[j] is Begin)
            &&& way[i] is Layer && way[j] is Layer ==> way[i]->layer <= way[j]->layer < c.layers
            &&& way[i] is Tail ==> way[j] is Tail
            &&& way[j] is Tail ==> wanted
            &&& wanted ==> way.last() == TokenPart::Tail(TailPart::Head)
        }),
{
    let way = way_of(c, has_norm, wanted);
    let all = parts_upto(c, c.layers as int);
    if 1 <= j <= all.len() {
        assert(way[j] == all[j - 1]);
        lemma_upto(c, c.layers as int, j - 1);
        if 1 <= i {
            assert(way[i] == all[i - 1]);
            lemma_order(c, c.layers as int, i - 1, j - 1);
        }
    }
    if 1 <= i <= all.len() {
        assert(way[i] == all[i - 1]);
        lemma_upto(c, c.layers as int, i - 1);
    }
    if wanted {
        let tail = tail_of(c.hc_count as int, has_norm);
        assert(tail.last() is Head);
        assert(way.last() == TokenPart::Tail(tail.last()));
    }
}

proof fn lemma_order(c: Cfg, n: int, i: int, j: int)
    requires
        0 <= n <= usize::MAX,
        0 <= i < j < parts_upto(c, n).len(),
    ensures
        parts_upto(c, n)[i] is Layer && parts_upto(c, n)[j] is Layer,
        parts_upto(c, n)[i]->layer <= parts_upto(c, n)[j]->layer,
    decreases n,
{
    let before = parts_upto(c, n - 1);
    lemma_upto(c, n, i);
    lemma_upto(c, n, j);
    if j < before.len() {
        lemma_order(c, n - 1, i, j);
        assert(parts_upto(c, n)[i] == before[i] && parts_upto(c, n)[j] == before[j]);
    } else {
        lemma_in_layer(c, n - 1, j - before.len());
        assert(parts_upto(c, n)[j] == parts_in(c, n - 1)[j - before.len()]);
    }
}

} // verus!
