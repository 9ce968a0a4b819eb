//! Fusion of two predictors' candidates into the experts to stage.

use vstd::prelude::*;

use crate::floatbits::{positive_finite, single_finite};
use crate::rank::{
    best, firsts, ids_of, lemma_firsts, push_unique, rank_single, ranked, usable, with_unique,
    Scored,
};
use crate::text::{
    chars_of, lower, lower_spec, parse_spec, parse_unsigned, same_text, spells, trim, trim_spec,
};

verus! {

/// How two lists of candidates become one.
#[derive(Clone, Copy, Debug, PartialEq, Eq, Structural)]
pub enum FusionArm {
    /// The first predictor alone.
    Edge0,
    /// The second predictor alone.
    RouteScout,
    /// Both in turn, rank by rank.
    Union,
    /// By the sum of reciprocal ranks.
    ReciprocalRank,
    /// By the weighted sum of scores, each list scaled to its best.
    Weighted,
}

impl FusionArm {
    /// The arm that a text names, in any case and with blanks around it; weighted for any other.
    pub open spec fn named(text: Seq<char>) -> FusionArm {
        let t = lower_spec(trim_spec(text));
        if t == "edge0"@ {
            FusionArm::Edge0
        } else if t == "routescout"@ || t == "rs"@ {
            FusionArm::RouteScout
        } else if t == "union"@ {
            FusionArm::Union
        } else if t == "rrf"@ || t == "reciprocal"@ || t == "reciprocal_rank"@ {
            FusionArm::ReciprocalRank
        } else {
            FusionArm::Weighted
        }
    }

    /// The arm that the value of a setting names; weighted where it is not set.
    pub fn from_env(value: Option<&str>) -> (arm: FusionArm)
        ensures
            arm == (match value {
                Some(v) => FusionArm::named(v@),
                None => FusionArm::Weighted,
            }),
    {
        match value {
            None => FusionArm::Weighted,
            Some(v) => {
                let t = lower(&trim(&chars_of(v)));
                if spells(&t, "edge0") {
                    FusionArm::Edge0
                } else if spells(&t, "routescout") || spells(&t, "rs") {
                    FusionArm::RouteScout
                } else if spells(&t, "union") {
                    FusionArm::Union
                } else if spells(&t, "rrf") || spells(&t, "reciprocal") || spells(
                    &t,
                    "reciprocal_rank",
                ) {
                    FusionArm::ReciprocalRank
                } else {
                    FusionArm::Weighted
                }
            },
        }
    }

    /// The name of an arm.
    pub open spec fn name_spec(self) -> Seq<char> {
        match self {
            FusionArm::Edge0 => "edge0"@,
            FusionArm::RouteScout => "routescout"@,
            FusionArm::Union => "union"@,
            FusionArm::ReciprocalRank => "rrf"@,
            FusionArm::Weighted => "weighted"@,
        }
    }

    /// The name of an arm.
    pub fn name(self) -> (s: &'static str)
        ensures
            s@ == self.name_spec(),
    {
        match self {
            FusionArm::Edge0 => "edge0",
            FusionArm::RouteScout => "routescout",
            FusionArm::Union => "union",
            FusionArm::ReciprocalRank => "rrf",
            FusionArm::Weighted => "weighted",
        }
    }
}

proof fn lemma_plain_name(t: Seq<char>)
    requires
        forall|i: int| 0 <= i < t.len() ==> ('a' <= #[trigger] t[i] && t[i] <= 'z') || t[i] == '0',
        t.len() > 0,
    ensures
        lower_spec(trim_spec(t)) == t,
{
    assert(!crate::text::is_space(t[0]));
    assert(!crate::text::is_space(t.last()));
    assert(lower_spec(t) =~= t);
}

/// The name of an arm names that arm.
pub proof fn law_name_round_trip(arm: FusionArm)
    ensures
        FusionArm::named(arm.name_spec()) == arm,
{
    reveal_strlit("edge0");
    reveal_strlit("routescout");
    reveal_strlit("rs");
    reveal_strlit("union");
    reveal_strlit("rrf");
    reveal_strlit("reciprocal");
    reveal_strlit("reciprocal_rank");
    reveal_strlit("weighted");
    lemma_plain_name(arm.name_spec());
    assert("rs"@.len() == 2);
    assert("weighted"@[0] != "edge0"@[0]);
    assert("routescout"@.len() != "edge0"@.len());
    assert("union"@[0] != "edge0"@[0]);
    assert("reciprocal"@[1] != "routescout"@[1]);
}

/// The settings of staging. Weights are patterns of singles.
#[derive(Clone, Copy, Debug)]
pub struct StageConfig {
    pub candidates: usize,
    pub arm: FusionArm,
    pub w_edge0: u32,
    pub w_routescout: u32,
    pub enabled: bool,
    pub resident_prior: bool,
}

/// Whether a switch is on: unless it is set to nothing or to `0`.
pub open spec fn switch_on(value: Option<&str>) -> bool {
    match value {
        Some(v) => v@ != "0"@ && v@.len() > 0,
        None => true,
    }
}

fn switch(value: Option<&str>) -> (on: bool)
    ensures
        on == switch_on(value),
{
    match value {
        Some(v) => !same_text(v, "0") && !v.is_empty(),
        None => true,
    }
}

/// A weight that was read, where it is a finite number.
pub open spec fn finite_or(bits: Option<u32>, default: u32) -> u32 {
    match bits {
        Some(b) => if single_finite(b) {
            b
        } else {
            default
        },
        None => default,
    }
}

fn weight(bits: Option<u32>) -> (w: u32)
    ensures
        w == finite_or(bits, 0x3f80_0000),
{
    match bits {
        Some(b) => if (b / 0x80_0000) % 256 != 255 {
            b
        } else {
            0x3f80_0000
        },
        None => 0x3f80_0000,
    }
}

/// The number of candidates that a setting gives: 4 where it gives none, and 1 to 64 in any case.
pub open spec fn candidates_spec(value: Option<&str>) -> nat {
    let n = match value {
        Some(v) => match parse_spec(v@, usize::MAX as nat) {
            Some(n) => n,
            None => 4,
        },
        None => 4,
    };
    if n < 1 {
        1
    } else if n > 64 {
        64
    } else {
        n
    }
}

impl StageConfig {
    /// The settings from the values of `QWEN_HYBRID_STAGE_M`, `QWEN_HYBRID_FUSION`,
    /// `QWEN_HYBRID_W_EDGE0`, `QWEN_HYBRID_W_RS` (both as read), `QWEN_HYBRID_STAGE` and
    /// `QWEN_HYBRID_RESIDENT_PRIOR`.
    pub fn from_env(
        m: Option<&str>,
        fusion: Option<&str>,
        w_edge0: Option<u32>,
        w_routescout: Option<u32>,
        stage: Option<&str>,
        prior: Option<&str>,
    ) -> (c: StageConfig)
        ensures
            c.candidates == candidates_spec(m),
            c.arm == (match fusion {
                Some(v) => FusionArm::named(v@),
                None => FusionArm::Weighted,
            }),
            c.w_edge0 == finite_or(w_edge0, 0x3f80_0000),
            c.w_routescout == finite_or(w_routescout, 0x3f80_0000),
            c.enabled == switch_on(stage),
            c.resident_prior == switch_on(prior),
    {
        let n: u64 = match m {
            Some(v) => match parse_unsigned(&chars_of(v), usize::MAX as u64) {
                Some(n) => n,
                None => 4,
            },
            None => 4,
        };
        let candidates: usize = if n < 1 {
            1
        } else if n > 64 {
            64
        } else {
            n as usize
        };
        StageConfig {
            candidates,
            arm: FusionArm::from_env(fusion),
            w_edge0: weight(w_edge0),
            w_routescout: weight(w_routescout),
            enabled: switch(stage),
            resident_prior: switch(prior),
        }
    }
}

/// A predicted expert and the pattern of its score.
#[derive(Clone, Copy, Debug, PartialEq, Eq, Structural)]
pub struct RankedCandidate {
    pub expert: usize,
    pub score: u32,
}

/// A prediction as a scored id.
pub open spec fn scored(list: Seq<RankedCandidate>) -> Seq<Scored> {
    list.map_values(|c: RankedCandidate| (c.expert, c.score))
}

fn as_scored(list: &Vec<RankedCandidate>) -> (out: Vec<Scored>)
    ensures
        out@ == scored(list@),
{
    let mut out: Vec<Scored> = Vec::new();
    let mut i: usize = 0;
    while i < list.len()
        invariant
            i <= list.len(),
            out@ == scored(list@.take(i as int)),
        decreases list.len() - i,
    {
        let c: RankedCandidate = list[i];
        out.push((c.expert, c.score));
        i += 1;
        assert(out@ =~= scored(list@.take(i as int)));
    }
    assert(list@.take(list.len() as int) =~= list@);
    out
}

/// The id at a rank, where the list goes that far.
pub open spec fn at_rank(ids: Seq<usize>, rank: int) -> Seq<usize> {
    if 0 <= rank < ids.len() {
        seq![ids[rank]]
    } else {
        Seq::empty()
    }
}

/// Two lists of ids in turn, for the first `n` ranks.
pub open spec fn in_turn(a: Seq<usize>, b: Seq<usize>, n: nat) -> Seq<usize>
    decreases n,
{
    if n == 0 {
        Seq::empty()
    } else {
        in_turn(a, b, (n - 1) as nat) + at_rank(a, n - 1) + at_rank(b, n - 1)
    }
}

/// The longer of two lengths.
pub open spec fn longer(a: nat, b: nat) -> nat {
    if a >= b {
        a
    } else {
        b
    }
}

/// The experts that an arm gives. For the arms that add scores, `sums` holds what the sums are.
pub open spec fn fused_spec(
    edge0: Seq<RankedCandidate>,
    routescout: Seq<Scored>,
    arm: FusionArm,
    sums: Seq<Scored>,
    budget: nat,
) -> Seq<usize> {
    match arm {
        FusionArm::Edge0 => best(scored(edge0), budget),
        FusionArm::RouteScout => best(routescout, budget),
        FusionArm::Union => firsts(
            in_turn(
                ids_of(scored(edge0)),
                ids_of(routescout),
                longer(edge0.len(), routescout.len()),
            ),
            budget,
        ),
        _ => best(sums, budget),
    }
}

proof fn lemma_firsts_at_rank(ids: Seq<usize>, more: Seq<usize>, budget: nat)
    requires
        more.len() <= 1,
    ensures
        firsts(ids + more, budget) == (if more.len() == 1 {
            with_unique(firsts(ids, budget), more[0], budget)
        } else {
            firsts(ids, budget)
        }),
{
    if more.len() == 1 {
        assert((ids + more).drop_last() =~= ids);
        assert((ids + more).last() == more[0]);
    } else {
        assert(ids + more =~= ids);
    }
}

/// The experts that two lists of candidates give.
pub fn fuse_candidates(
    edge0: &Vec<RankedCandidate>,
    routescout: &Vec<Scored>,
    arm: FusionArm,
    sums: &Vec<Scored>,
    budget: usize,
) -> (out: Vec<usize>)
    ensures
        out@ == fused_spec(edge0@, routescout@, arm, sums@, budget as nat),
{
    match arm {
        FusionArm::Edge0 => rank_single(&as_scored(edge0), budget),
        FusionArm::RouteScout => rank_single(routescout, budget),
        FusionArm::Union => {
            let mut out: Vec<usize> = Vec::new();
            let high: usize = if edge0.len() >= routescout.len() {
                edge0.len()
            } else {
                routescout.len()
            };
            let ghost a = ids_of(scored(edge0@));
            let ghost b = ids_of(routescout@);
            let mut rank: usize = 0;
            while rank < high
                invariant
                    rank <= high,
                    high == longer(edge0@.len(), routescout@.len()),
                    a == ids_of(scored(edge0@)),
                    b == ids_of(routescout@),
                    out@ == firsts(in_turn(a, b, rank as nat), budget as nat),
                decreases high - rank,
            {
                let ghost sofar = in_turn(a, b, rank as nat);
                proof {
                    lemma_firsts_at_rank(sofar, at_rank(a, rank as int), budget as nat);
                    lemma_firsts_at_rank(
                        sofar + at_rank(a, rank as int),
                        at_rank(b, rank as int),
                        budget as nat,
                    );
                }
                if rank < edge0.len() {
                    push_unique(&mut out, edge0[rank].expert, budget);
                }
                if rank < routescout.len() {
                    push_unique(&mut out, routescout[rank].0, budget);
                }
                rank += 1;
            }
            out
        },
        _ => rank_single(sums, budget),
    }
}

/// Whatever the arm, fusion gives no more experts than its budget and none twice.
pub proof fn law_fusion_is_bounded_and_distinct(
    edge0: Seq<RankedCandidate>,
    routescout: Seq<Scored>,
    arm: FusionArm,
    sums: Seq<Scored>,
    budget: nat,
)
    ensures
        fused_spec(edge0, routescout, arm, sums, budget).len() <= budget,
        fused_spec(edge0, routescout, arm, sums, budget).no_duplicates(),
{
    let ids = match arm {
        FusionArm::Edge0 => ids_of(ranked(usable(scored(edge0)))),
        FusionArm::RouteScout => ids_of(ranked(usable(routescout))),
        FusionArm::Union => in_turn(
            ids_of(scored(edge0)),
            ids_of(routescout),
            longer(edge0.len(), routescout.len()),
        ),
        _ => ids_of(ranked(usable(sums))),
    };
    lemma_firsts(ids, budget);
}

/// Each predictor's arm ignores the other predictor and the sums.
pub proof fn law_single_arms_ignore_the_other(
    edge0: Seq<RankedCandidate>,
    routescout: Seq<Scored>,
    sums: Seq<Scored>,
    other_edge0: Seq<RankedCandidate>,
    other_routescout: Seq<Scored>,
    other_sums: Seq<Scored>,
    budget: nat,
)
    ensures
        fused_spec(edge0, routescout, FusionArm::Edge0, sums, budget) == fused_spec(
            edge0,
            other_routescout,
            FusionArm::Edge0,
            other_sums,
            budget,
        ),
        fused_spec(edge0, routescout, FusionArm::RouteScout, sums, budget) == fused_spec(
            other_edge0,
            routescout,
            FusionArm::RouteScout,
            other_sums,
            budget,
        ),
{
}

/// Which predictor an addend comes from.
#[derive(Clone, Copy, Debug, PartialEq, Eq, Structural)]
pub enum Predictor {
    Edge0,
    RouteScout,
}

/// One addend of an expert's sum: a predictor and the rank that it gave the expert.
pub type Addend = (Predictor, usize);

/// The sums with one addend more: behind those of its expert, or with a new expert.
pub open spec fn with_addend(
    sums: Seq<(usize, Seq<Addend>)>,
    expert: usize,
    addend: Addend,
) -> Seq<(usize, Seq<Addend>)> {
    match sum_of(sums, expert) {
        Some(i) => sums.update(i, (expert, sums[i].1.push(addend))),
        None => sums.push((expert, seq![addend])),
    }
}

/// The place of an expert's sum.
pub open spec fn sum_of(sums: Seq<(usize, Seq<Addend>)>, expert: usize) -> Option<int>
    decreases sums.len(),
{
    if sums.len() == 0 {
        None
    } else {
        match sum_of(sums.drop_last(), expert) {
            Some(i) => Some(i),
            None => if sums.last().0 == expert {
                Some(sums.len() - 1)
            } else {
                None
            },
        }
    }
}

/// The sums after the ids of one predictor.
pub open spec fn summed(
    sums: Seq<(usize, Seq<Addend>)>,
    ids: Seq<usize>,
    from: Predictor,
) -> Seq<(usize, Seq<Addend>)>
    decreases ids.len(),
{
    if ids.len() == 0 {
        sums
    } else {
        with_addend(
            summed(sums, ids.drop_last(), from),
            ids.last(),
            (from, (ids.len() - 1) as usize),
        )
    }
}

/// The sums as values.
pub open spec fn sums_view(v: Seq<(usize, Vec<Addend>)>) -> Seq<(usize, Seq<Addend>)> {
    v.map_values(|s: (usize, Vec<Addend>)| (s.0, s.1@))
}

proof fn lemma_sum_of(sums: Seq<(usize, Seq<Addend>)>, expert: usize, i: int)
    requires
        0 <= i <= sums.len(),
        forall|j: int| 0 <= j < i ==> (#[trigger] sums[j]).0 != expert,
    ensures
        i < sums.len() && sums[i].0 == expert ==> sum_of(sums, expert) == Some(i),
        i == sums.len() ==> sum_of(sums, expert) is None,
    decreases sums.len(),
{
    if sums.len() > 0 {
        let rest = sums.drop_last();
        assert forall|j: int| 0 <= j < i && j < rest.len() implies (#[trigger] rest[j]).0
            != expert by {
            assert(rest[j] == sums[j]);
        }
        if i < sums.len() {
            lemma_sum_of(rest, expert, i);
        } else {
            lemma_sum_of(rest, expert, i - 1);
            assert(sums[i - 1].0 != expert);
        }
    }
}

fn add_addend(sums: &mut Vec<(usize, Vec<Addend>)>, expert: usize, addend: Addend)
    ensures
        sums_view(final(sums)@) == with_addend(sums_view(old(sums)@), expert, addend),
{
    let ghost before = sums_view(sums@);
    let mut i: usize = 0;
    while i < sums.len()
        invariant
            i <= sums.len(),
            sums@ == old(sums)@,
            before == sums_view(sums@),
            forall|j: int| 0 <= j < i ==> (#[trigger] before[j]).0 != expert,
        decreases sums.len() - i,
    {
        assert(before[i as int].0 == sums[i as int].0);
        if sums[i].0 == expert {
            proof {
                lemma_sum_of(before, expert, i as int);
            }
            sums[i].1.push(addend);
            assert(sums_view(sums@) =~= with_addend(before, expert, addend));
            return;
        }
        i += 1;
    }
    proof {
        lemma_sum_of(before, expert, i as int);
    }
    let mut list: Vec<Addend> = Vec::new();
    list.push(addend);
    assert(list@ =~= seq![addend]);
    sums.push((expert, list));
    assert(sums_view(sums@) =~= with_addend(before, expert, addend));
}

/// The addends of every expert, from the ranks that both predictors give.
pub open spec fn addends_of(edge0: Seq<RankedCandidate>, routescout: Seq<Scored>) -> Seq<
    (usize, Seq<Addend>),
> {
    summed(
        summed(Seq::empty(), ids_of(scored(edge0)), Predictor::Edge0),
        ids_of(routescout),
        Predictor::RouteScout,
    )
}

/// The sums that a way of adding up addends gives.
pub open spec fn added(list: Seq<(usize, Seq<Addend>)>, adder: spec_fn(Seq<Addend>) -> u32) -> Seq<
    Scored,
> {
    list.map_values(|x: (usize, Seq<Addend>)| (x.0, adder(x.1)))
}

/// Only ranks count where candidates are taken in turn or by reciprocal ranks: lists that name the
/// same experts in the same order give the same experts, whatever their scores are and however the
/// addends of reciprocal ranks are added up.
pub proof fn law_rank_arms_ignore_the_scores(
    edge0: Seq<RankedCandidate>,
    routescout: Seq<Scored>,
    other_edge0: Seq<RankedCandidate>,
    other_routescout: Seq<Scored>,
    adder: spec_fn(Seq<Addend>) -> u32,
    sums: Seq<Scored>,
    other_sums: Seq<Scored>,
    budget: nat,
)
    requires
        ids_of(scored(edge0)) == ids_of(scored(other_edge0)),
        ids_of(routescout) == ids_of(other_routescout),
    ensures
        addends_of(edge0, routescout) == addends_of(other_edge0, other_routescout),
        fused_spec(
            edge0,
            routescout,
            FusionArm::ReciprocalRank,
            added(addends_of(edge0, routescout), adder),
            budget,
        ) == fused_spec(
            other_edge0,
            other_routescout,
            FusionArm::ReciprocalRank,
            added(addends_of(other_edge0, other_routescout), adder),
            budget,
        ),
        fused_spec(edge0, routescout, FusionArm::Union, sums, budget) == fused_spec(
            other_edge0,
            other_routescout,
            FusionArm::Union,
            other_sums,
            budget,
        ),
{
    assert(ids_of(scored(edge0)).len() == edge0.len());
    assert(ids_of(scored(other_edge0)).len() == other_edge0.len());
    assert(ids_of(routescout).len() == routescout.len());
    assert(ids_of(other_routescout).len() == other_routescout.len());
}


/// What the arms that add scores add up: for each expert, in the order in which the experts first
/// occur, the ranks that the predictors gave it, in the order in which they are added.
pub fn fusion_sums(edge0: &Vec<RankedCandidate>, routescout: &Vec<Scored>) -> (out: Vec<
    (usize, Vec<Addend>),
>)
    ensures
        sums_view(out@) == addends_of(edge0@, routescout@),
{
    let mut out: Vec<(usize, Vec<Addend>)> = Vec::new();
    let ghost a = ids_of(scored(edge0@));
    let ghost b = ids_of(routescout@);
    assert(sums_view(out@) =~= Seq::empty());
    assert(a.take(0) =~= Seq::empty());
    let mut i: usize = 0;
    while i < edge0.len()
        invariant
            i <= edge0.len(),
            a == ids_of(scored(edge0@)),
            sums_view(out@) == summed(Seq::empty(), a.take(i as int), Predictor::Edge0),
        decreases edge0.len() - i,
    {
        assert(a.take(i + 1).drop_last() =~= a.take(i as int));
        add_addend(&mut out, edge0[i].expert, (Predictor::Edge0, i));
        i += 1;
    }
    assert(a.take(i as int) =~= a);
    let ghost mid = sums_view(out@);
    assert(b.take(0) =~= Seq::empty());
    let mut j: usize = 0;
    while j < routescout.len()
        invariant
            j <= routescout.len(),
            b == ids_of(routescout@),
            sums_view(out@) == summed(mid, b.take(j as int), Predictor::RouteScout),
        decreases routescout.len() - j,
    {
        assert(b.take(j + 1).drop_last() =~= b.take(j as int));
        add_addend(&mut out, routescout[j].0, (Predictor::RouteScout, j));
        j += 1;
    }
    assert(b.take(j as int) =~= b);
    out
}

/// The best positive finite score of a list, or zero: what a list is scaled by, where it is not zero.
pub open spec fn peak_spec(list: Seq<Scored>) -> u32
    decreases list.len(),
{
    if list.len() == 0 {
        0
    } else {
        let p = peak_spec(list.drop_last());
        if positive_finite(list.last().1) && list.last().1 > p {
            list.last().1
        } else {
            p
        }
    }
}

/// The best positive finite score of a list, or zero.
pub fn peak(list: &Vec<Scored>) -> (p: u32)
    ensures
        p == peak_spec(list@),
        p == 0 || positive_finite(p),
        forall|i: int| 0 <= i < list.len() && positive_finite(list[i].1) ==> list[i].1 <= p,
{
    let mut p: u32 = 0;
    let mut i: usize = 0;
    while i < list.len()
        invariant
            i <= list.len(),
            p == peak_spec(list@.take(i as int)),
            p == 0 || positive_finite(p),
            forall|j: int| 0 <= j < i && positive_finite(list[j].1) ==> list[j].1 <= p,
        decreases list.len() - i,
    {
        assert(list@.take(i + 1).drop_last() =~= list@.take(i as int));
        let s: u32 = list[i].1;
        if 0 < s && s < 0x7f80_0000 && s > p {
            p = s;
        }
        i += 1;
    }
    assert(list@.take(i as int) =~= list@);
    p
}

/// In a union the candidates of the two predictors take turns, rank by rank, the first predictor first;
/// behind the shorter list stands the rest of the longer.
pub proof fn law_in_a_union_predictors_take_turns(a: Seq<usize>, b: Seq<usize>, n: nat, i: int)
    requires
        0 <= i < n,
        n <= a.len(),
        n <= b.len(),
    ensures
        in_turn(a, b, n).len() == 2 * n,
        in_turn(a, b, n)[2 * i] == a[i],
        in_turn(a, b, n)[2 * i + 1] == b[i],
    decreases n,
{
    let m = (n - 1) as nat;
    if m == 0 {
        assert(in_turn(a, b, 0) =~= Seq::empty());
    } else {
        law_in_a_union_predictors_take_turns(a, b, m, if i < m {
            i
        } else {
            0
        });
    }
    assert(in_turn(a, b, n) =~= in_turn(a, b, m) + seq![a[n - 1]] + seq![b[n - 1]]);
}

/// Where one list has ended, the other goes on alone.
pub proof fn law_the_longer_list_goes_on_alone(a: Seq<usize>, b: Seq<usize>, n: nat)
    ensures
        b.len() <= n < a.len() ==> in_turn(a, b, n + 1) == in_turn(a, b, n).push(a[n as int]),
        a.len() <= n < b.len() ==> in_turn(a, b, n + 1) == in_turn(a, b, n).push(b[n as int]),
{
    if b.len() <= n < a.len() {
        assert(in_turn(a, b, n + 1) =~= in_turn(a, b, n).push(a[n as int]));
    }
    if a.len() <= n < b.len() {
        assert(in_turn(a, b, n + 1) =~= in_turn(a, b, n).push(b[n as int]));
    }
}

/// How many candidates are staged: four where nothing is said, and never none nor more than sixty-four.
pub proof fn law_between_one_and_sixty_four_candidates(value: Option<&str>)
    ensures
        1 <= candidates_spec(value) <= 64,
        value is None ==> candidates_spec(value) == 4,
        value is Some && parse_spec(value->0@, usize::MAX as nat) is None ==> candidates_spec(value)
            == 4,
        value is Some && parse_spec(value->0@, usize::MAX as nat) is Some && 1 <= parse_spec(
            value->0@,
            usize::MAX as nat,
        )->0 <= 64 ==> candidates_spec(value) == parse_spec(value->0@, usize::MAX as nat)->0,
{
}

/// The peak of a list is the score of one of its candidates, or nothing where none has one.
pub proof fn law_the_peak_is_attained(list: Seq<Scored>)
    ensures
        peak_spec(list) == 0 || exists|i: int|
            0 <= i < list.len() && (#[trigger] list[i]).1 == peak_spec(list) && positive_finite(
                list[i].1,
            ),
        forall|i: int|
            0 <= i < list.len() && positive_finite((#[trigger] list[i]).1) ==> list[i].1 <= peak_spec(
                list,
            ),
    decreases list.len(),
{
    if list.len() > 0 {
        let short = list.drop_last();
        law_the_peak_is_attained(short);
        let n = list.len() - 1;
        if peak_spec(list) != 0 {
            if peak_spec(list) == list[n].1 && positive_finite(list[n].1) {
                assert(list[n].1 == peak_spec(list));
            } else {
                let i = choose|i: int|
                    0 <= i < short.len() && (#[trigger] short[i]).1 == peak_spec(short)
                        && positive_finite(short[i].1);
                assert(list[i] == short[i]);
            }
        }
        assert forall|i: int|
            0 <= i < list.len() && positive_finite((#[trigger] list[i]).1) implies list[i].1
            <= peak_spec(list) by {
            if i < n {
                assert(short[i] == list[i]);
            }
        }
    }
}

/// Every candidate adds its rank to the sum of its expert: where no list names an expert twice, an expert
/// that both name has its rank with the one predictor and behind it that with the other.
pub proof fn law_an_expert_of_both_has_two_addends(
    edge0: Seq<RankedCandidate>,
    routescout: Seq<Scored>,
    i: int,
    j: int,
)
    requires
        ids_of(scored(edge0)).no_duplicates(),
        ids_of(routescout).no_duplicates(),
        0 <= i < edge0.len() <= usize::MAX,
        0 <= j < routescout.len() <= usize::MAX,
        edge0[i].expert == routescout[j].0,
    ensures
        ({
            let sums = addends_of(edge0, routescout);
            let at = sum_of(sums, edge0[i].expert);
            &&& at is Some && 0 <= at->0 < sums.len()
            &&& sums[at->0] == (
                edge0[i].expert,
                seq![(Predictor::Edge0, i as usize), (Predictor::RouteScout, j as usize)],
            )
        }),
{
    let x = edge0[i].expert;
    let (a, b) = (ids_of(scored(edge0)), ids_of(routescout));
    assert(a[i] == x && b[j] == x);
    let none = Seq::<(usize, Seq<Addend>)>::empty();
    assert(sum_of(none, x) is None);
    lemma_summed(none, a, Predictor::Edge0, x, i);
    let first = summed(none, a, Predictor::Edge0);
    lemma_summed(first, b, Predictor::RouteScout, x, j);
    let before = seq![(Predictor::Edge0, i as usize)];
    assert(before.push((Predictor::RouteScout, j as usize)) =~= seq![
        (Predictor::Edge0, i as usize),
        (Predictor::RouteScout, j as usize),
    ]);
}

proof fn lemma_found_sum(sums: Seq<(usize, Seq<Addend>)>, x: usize)
    ensures
        sum_of(sums, x) matches Some(i) ==> 0 <= i < sums.len() && sums[i].0 == x,
        sum_of(sums, x) is None ==> forall|i: int| 0 <= i < sums.len() ==> (#[trigger] sums[i]).0 != x,
        sum_of(sums, x) matches Some(i) ==> forall|k: int|
            0 <= k < i ==> (#[trigger] sums[k]).0 != x,
    decreases sums.len(),
{
    if sums.len() > 0 {
        lemma_found_sum(sums.drop_last(), x);
        assert forall|k: int| 0 <= k < sums.len() - 1 implies #[trigger] sums[k]
            == sums.drop_last()[k] by {}
    }
}

proof fn lemma_found_sum_is(sums: Seq<(usize, Seq<Addend>)>, x: usize, i: int)
    requires
        0 <= i < sums.len(),
        sums[i].0 == x,
        forall|k: int| 0 <= k < i ==> (#[trigger] sums[k]).0 != x,
    ensures
        sum_of(sums, x) == Some(i),
{
    lemma_found_sum(sums, x);
}

/// The addends of an expert before, or none.
pub open spec fn addends_in(sums: Seq<(usize, Seq<Addend>)>, x: usize) -> Seq<Addend> {
    match sum_of(sums, x) {
        Some(i) => sums[i].1,
        None => Seq::empty(),
    }
}

proof fn lemma_with_addend(sums: Seq<(usize, Seq<Addend>)>, e: usize, a: Addend, x: usize)
    ensures
        e != x ==> addends_in(with_addend(sums, e, a), x) == addends_in(sums, x) && (sum_of(
            with_addend(sums, e, a),
            x,
        ) is Some <==> sum_of(sums, x) is Some),
        e == x ==> addends_in(with_addend(sums, e, a), x) == addends_in(sums, x).push(a) && sum_of(
            with_addend(sums, e, a),
            x,
        ) is Some,
{
    lemma_found_sum(sums, x);
    lemma_found_sum(sums, e);
    let new = with_addend(sums, e, a);
    lemma_found_sum(new, x);
    match sum_of(sums, e) {
        Some(k) => {
            assert forall|m: int| 0 <= m < sums.len() implies (#[trigger] new[m]).0 == sums[m].0 by {}
            match sum_of(sums, x) {
                Some(i) => {
                    assert forall|m: int| 0 <= m < i implies (#[trigger] new[m]).0 != x by {
                        assert(sums[m].0 != x);
                    }
                    lemma_found_sum_is(new, x, i);
                },
                None => {
                    if let Some(i) = sum_of(new, x) {
                        assert(sums[i].0 != x);
                    }
                },
            }
        },
        None => {
            assert forall|m: int| 0 <= m < sums.len() implies #[trigger] new[m] == sums[m] by {}
            match sum_of(sums, x) {
                Some(i) => {
                    assert forall|m: int| 0 <= m < i implies (#[trigger] new[m]).0 != x by {
                        assert(sums[m].0 != x);
                    }
                    lemma_found_sum_is(new, x, i);
                },
                None => {
                    if e == x {
                        assert forall|m: int| 0 <= m < sums.len() implies (#[trigger] new[m]).0
                            != x by {
                            assert(sums[m].0 != x);
                        }
                        lemma_found_sum_is(new, x, sums.len() as int);
                        assert(new[sums.len() as int].1 =~= Seq::<Addend>::empty().push(a));
                    } else if let Some(i) = sum_of(new, x) {
                        if i < sums.len() {
                            assert(sums[i].0 != x);
                        }
                    }
                },
            }
        },
    }
}

proof fn lemma_not_summed(sums: Seq<(usize, Seq<Addend>)>, ids: Seq<usize>, from: Predictor, x: usize)
    requires
        !ids.contains(x),
    ensures
        addends_in(summed(sums, ids, from), x) == addends_in(sums, x),
        sum_of(summed(sums, ids, from), x) is Some <==> sum_of(sums, x) is Some,
    decreases ids.len(),
{
    if ids.len() > 0 {
        let short = ids.drop_last();
        assert(ids[ids.len() - 1] != x);
        assert(!short.contains(x)) by {
            if short.contains(x) {
                let k = choose|k: int| 0 <= k < short.len() && short[k] == x;
                assert(ids[k] == x);
            }
        }
        lemma_not_summed(sums, short, from, x);
        lemma_with_addend(
            summed(sums, short, from),
            ids.last(),
            (from, (ids.len() - 1) as usize),
            x,
        );
    }
}

proof fn lemma_summed(
    sums: Seq<(usize, Seq<Addend>)>,
    ids: Seq<usize>,
    from: Predictor,
    x: usize,
    i: int,
)
    requires
        ids.no_duplicates(),
        0 <= i < ids.len() <= usize::MAX,
        ids[i] == x,
    ensures
        addends_in(summed(sums, ids, from), x) == addends_in(sums, x).push((from, i as usize)),
        sum_of(summed(sums, ids, from), x) is Some,
        ({
            let all = summed(sums, ids, from);
            let at = sum_of(all, x)->0;
            0 <= at < all.len() && all[at] == (x, addends_in(sums, x).push((from, i as usize)))
        }),
    decreases ids.len(),
{
    let short = ids.drop_last();
    let n = ids.len() - 1;
    let before = summed(sums, short, from);
    if i < n {
        assert(short[i] == x);
        lemma_summed(sums, short, from, x, i);
        assert(ids[n] != ids[i]);
    } else {
        assert(!short.contains(x)) by {
            if short.contains(x) {
                let k = choose|k: int| 0 <= k < short.len() && short[k] == x;
                assert(ids[k] == ids[n]);
            }
        }
        lemma_not_summed(sums, short, from, x);
    }
    lemma_with_addend(before, ids.last(), (from, n as usize), x);
    lemma_found_sum(summed(sums, ids, from), x);
}

/// What the ways of joining predictions are called: one of their names in any case and with spaces round
/// it, and anything else means by weight.
pub proof fn law_what_the_ways_are_called(text: Seq<char>)
    ensures
        ({
            let t = lower_spec(trim_spec(text));
            &&& FusionArm::named(text) is Edge0 <==> t == "edge0"@
            &&& FusionArm::named(text) is RouteScout <==> t == "routescout"@ || t == "rs"@
            &&& FusionArm::named(text) is Union <==> t == "union"@
            &&& FusionArm::named(text) is ReciprocalRank <==> t == "rrf"@ || t == "reciprocal"@ || t
                == "reciprocal_rank"@
        }),
{
    reveal_strlit("edge0");
    reveal_strlit("routescout");
    reveal_strlit("rs");
    reveal_strlit("union");
    reveal_strlit("rrf");
    reveal_strlit("reciprocal");
    reveal_strlit("reciprocal_rank");
    assert("edge0"@[0] == 'e' && "union"@[0] == 'u' && "rs"@[1] == 's' && "routescout"@[1] == 'o');
    assert("rrf"@[1] == 'r' && "reciprocal"@[1] == 'e' && "reciprocal_rank"@[1] == 'e');
    assert("rrf"@[0] == 'r' && "rs"@[0] == 'r');
}

} // verus!
