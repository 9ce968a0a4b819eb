//! Ranking of scored candidates: best score first, lower id first among equals.

use vstd::prelude::*;
use vstd::relations::{sorted_by, total_ordering};
use vstd::seq_lib::{lemma_sorted_unique, to_multiset_insert};

use crate::floatbits::{order_key, positive_finite, total_key};

verus! {

/// A candidate: an id and the pattern of its score.
pub type Scored = (usize, u32);

/// Whether `a` may stand before `b`.
pub open spec fn no_worse(a: Scored, b: Scored) -> bool {
    total_key(a.1) > total_key(b.1) || (total_key(a.1) == total_key(b.1) && a.0 <= b.0)
}

/// The order of ranking.
pub open spec fn ranking() -> spec_fn(Scored, Scored) -> bool {
    |a: Scored, b: Scored| no_worse(a, b)
}

/// The candidates from the best to the worst.
pub open spec fn ranked(list: Seq<Scored>) -> Seq<Scored> {
    list.sort_by(ranking())
}

/// Ranking is a total order of candidates.
pub proof fn lemma_ranking_total()
    ensures
        total_ordering(ranking()),
{
}

fn better_or_same(a: Scored, b: Scored) -> (r: bool)
    ensures
        r == no_worse(a, b),
{
    let x: i64 = order_key(a.1);
    let y: i64 = order_key(b.1);
    x > y || (x == y && a.0 <= b.0)
}

fn insert_ranked(out: &mut Vec<Scored>, c: Scored)
    requires
        sorted_by(old(out)@, ranking()),
    ensures
        sorted_by(final(out)@, ranking()),
        final(out)@.to_multiset() == old(out)@.to_multiset().insert(c),
        final(out)@.len() == old(out)@.len() + 1,
{
    let mut at: usize = out.len();
    while at > 0 && !better_or_same(out[at - 1], c)
        invariant
            at <= out.len(),
            out@ == old(out)@,
            forall|j: int| at <= j < out.len() ==> !no_worse(#[trigger] out@[j], c),
        decreases at,
    {
        at -= 1;
    }
    let ghost before = out@;
    out.insert(at, c);
    proof {
        to_multiset_insert(before, at as int, c);
        let s = out@;
        assert(s == before.insert(at as int, c));
        assert forall|i: int, j: int| 0 <= i < j < s.len() implies #[trigger] ranking()(s[i], s[j]) by {
            if j == at {
                assert(s[i] == before[i]);
                assert(no_worse(before[at - 1], c));
                if i < at - 1 {
                    assert(ranking()(before[i], before[at - 1]));
                }
            } else if i == at {
                assert(s[j] == before[j - 1]);
                assert(!no_worse(before[j - 1], c));
            } else {
                let a = if i < at {
                    i
                } else {
                    i - 1
                };
                let b = if j < at {
                    j
                } else {
                    j - 1
                };
                assert(s[i] == before[a] && s[j] == before[b]);
                assert(ranking()(before[a], before[b]));
            }
        }
    }
}

/// Ranks candidates.
pub fn rank(list: &Vec<Scored>) -> (out: Vec<Scored>)
    ensures
        out@ == ranked(list@),
        out@.len() == list@.len(),
        out@.to_multiset() == list@.to_multiset(),
        sorted_by(out@, ranking()),
{
    let mut out: Vec<Scored> = Vec::new();
    let mut i: usize = 0;
    assert(list@.take(0) =~= Seq::empty());
    while i < list.len()
        invariant
            i <= list.len(),
            out.len() == i,
            sorted_by(out@, ranking()),
            out@.to_multiset() == list@.take(i as int).to_multiset(),
        decreases list.len() - i,
    {
        proof {
            let t = list@.take(i as int);
            assert(list@.take(i + 1) =~= t.insert(t.len() as int, list@[i as int]));
            to_multiset_insert(t, t.len() as int, list@[i as int]);
        }
        insert_ranked(&mut out, list[i]);
        i += 1;
    }
    proof {
        assert(list@.take(list.len() as int) =~= list@);
        lemma_ranking_total();
        list@.lemma_sort_by_ensures(ranking());
        lemma_sorted_unique(out@, ranked(list@), ranking());
    }
    out
}

/// `out` with `e` behind it, where it is new and there is room.
pub open spec fn with_unique(out: Seq<usize>, e: usize, budget: nat) -> Seq<usize> {
    if out.len() < budget && !out.contains(e) {
        out.push(e)
    } else {
        out
    }
}

/// The first `budget` different ids of a list, in order.
pub open spec fn firsts(ids: Seq<usize>, budget: nat) -> Seq<usize>
    decreases ids.len(),
{
    if ids.len() == 0 {
        Seq::empty()
    } else {
        with_unique(firsts(ids.drop_last(), budget), ids.last(), budget)
    }
}

/// Whether a list holds an id.
pub fn contains_id(ids: &Vec<usize>, e: usize) -> (r: bool)
    ensures
        r == ids@.contains(e),
{
    let mut i: usize = 0;
    while i < ids.len()
        invariant
            i <= ids.len(),
            forall|j: int| 0 <= j < i ==> ids[j] != e,
        decreases ids.len() - i,
    {
        if ids[i] == e {
            assert(ids@[i as int] == e);
            return true;
        }
        i += 1;
    }
    false
}

/// Appends an id that is new, while there is room.
pub fn push_unique(out: &mut Vec<usize>, expert: usize, budget: usize)
    ensures
        final(out)@ == with_unique(old(out)@, expert, budget as nat),
{
    if out.len() < budget && !contains_id(out, expert) {
        out.push(expert);
    }
}

/// What `firsts` gives has no id twice, stays within the budget, and holds only ids of the list.
pub proof fn lemma_firsts(ids: Seq<usize>, budget: nat)
    ensures
        firsts(ids, budget).len() <= budget,
        firsts(ids, budget).len() <= ids.len(),
        firsts(ids, budget).no_duplicates(),
        forall|e: usize| #[trigger] firsts(ids, budget).contains(e) ==> ids.contains(e),
        firsts(ids, budget).len() < budget ==> forall|e: usize| #[trigger]
            ids.contains(e) ==> firsts(ids, budget).contains(e),
    decreases ids.len(),
{
    if ids.len() > 0 {
        let rest = ids.drop_last();
        let f = firsts(rest, budget);
        let g = firsts(ids, budget);
        lemma_firsts(rest, budget);
        assert forall|e: usize| #[trigger] g.contains(e) implies ids.contains(e) by {
            let k = choose|k: int| 0 <= k < g.len() && g[k] == e;
            if k < f.len() {
                assert(f.contains(f[k]));
                let m = choose|m: int| 0 <= m < rest.len() && rest[m] == e;
                assert(ids[m] == e);
            } else {
                assert(ids[ids.len() - 1] == e);
            }
        }
        if g.len() < budget {
            assert forall|e: usize| #[trigger] ids.contains(e) implies g.contains(e) by {
                let m = choose|m: int| 0 <= m < ids.len() && ids[m] == e;
                if m < ids.len() - 1 {
                    assert(rest[m] == e);
                    assert(rest.contains(e));
                    assert(f.contains(e));
                    let k = choose|k: int| 0 <= k < f.len() && f[k] == e;
                    assert(g[k] == e);
                } else if f.contains(e) {
                    let k = choose|k: int| 0 <= k < f.len() && f[k] == e;
                    assert(g[k] == e);
                } else {
                    assert(g[g.len() - 1] == e);
                }
            }
        }
    }
}

/// The ids of candidates.
pub open spec fn ids_of(list: Seq<Scored>) -> Seq<usize> {
    list.map_values(|c: Scored| c.0)
}

/// The candidates whose score is a positive finite number.
pub open spec fn usable(list: Seq<Scored>) -> Seq<Scored>
    decreases list.len(),
{
    if list.len() == 0 {
        Seq::empty()
    } else if positive_finite(list.last().1) {
        usable(list.drop_last()).push(list.last())
    } else {
        usable(list.drop_last())
    }
}

/// The ids of the `budget` best candidates whose score is a positive finite number, each once.
pub open spec fn best(list: Seq<Scored>, budget: nat) -> Seq<usize> {
    firsts(ids_of(ranked(usable(list))), budget)
}

/// The ids of the `budget` best candidates, each once.
pub fn rank_single(list: &Vec<Scored>, budget: usize) -> (out: Vec<usize>)
    ensures
        out@ == best(list@, budget as nat),
{
    let mut kept: Vec<Scored> = Vec::new();
    let mut i: usize = 0;
    while i < list.len()
        invariant
            i <= list.len(),
            kept@ == usable(list@.take(i as int)),
        decreases list.len() - i,
    {
        assert(list@.take(i + 1).drop_last() =~= list@.take(i as int));
        let c: Scored = list[i];
        if 0 < c.1 && c.1 < 0x7f80_0000 {
            kept.push(c);
        }
        i += 1;
    }
    assert(list@.take(list.len() as int) =~= list@);
    let scored = rank(&kept);
    let mut out: Vec<usize> = Vec::new();
    let mut k: usize = 0;
    let ghost ids = ids_of(scored@);
    while k < scored.len()
        invariant
            k <= scored.len(),
            ids == ids_of(scored@),
            out@ == firsts(ids.take(k as int), budget as nat),
        decreases scored.len() - k,
    {
        assert(ids.take(k + 1).drop_last() =~= ids.take(k as int));
        push_unique(&mut out, scored[k].0, budget);
        k += 1;
    }
    assert(ids.take(scored.len() as int) =~= ids);
    out
}

/// Of several entries of an id the first counts, and the order of the firsts is kept: what is taken of
/// a part of the list stands in front of what is taken of all of it.
pub proof fn law_firsts_keep_their_order(ids: Seq<usize>, budget: nat, n: int)
    requires
        0 <= n <= ids.len(),
    ensures
        firsts(ids.take(n), budget).len() <= firsts(ids, budget).len(),
        firsts(ids, budget).take(firsts(ids.take(n), budget).len() as int) == firsts(
            ids.take(n),
            budget,
        ),
        n < ids.len() && firsts(ids.take(n), budget).len() < budget ==> firsts(
            ids,
            budget,
        ).contains(ids[n]),
        n < ids.len() && !ids.take(n).contains(ids[n]) && firsts(ids.take(n), budget).len() < budget
            ==> firsts(ids, budget)[firsts(ids.take(n), budget).len() as int] == ids[n] && firsts(
            ids.take(n + 1),
            budget,
        ).len() == firsts(ids.take(n), budget).len() + 1,
    decreases ids.len() - n,
{
    let (some, all) = (firsts(ids.take(n), budget), firsts(ids, budget));
    if n == ids.len() {
        assert(ids.take(n) =~= ids);
        assert(all.take(all.len() as int) =~= all);
    } else {
        law_firsts_keep_their_order(ids, budget, n + 1);
        assert(ids.take(n + 1).drop_last() =~= ids.take(n));
        assert(ids.take(n + 1).last() == ids[n]);
        let more = firsts(ids.take(n + 1), budget);
        assert(more == with_unique(some, ids[n], budget));
        assert(all.take(some.len() as int) =~= all.take(more.len() as int).take(some.len() as int));
        assert(more.take(some.len() as int) =~= some);
        if some.len() < budget {
            if some.contains(ids[n]) {
                let i = choose|i: int| 0 <= i < some.len() && some[i] == ids[n];
                assert(all.take(some.len() as int)[i] == ids[n]);
                assert(all[i] == ids[n]);
                lemma_firsts_are_listed(ids.take(n), budget);
            } else {
                assert(more[some.len() as int] == ids[n]);
                assert(all.take(more.len() as int)[some.len() as int] == ids[n]);
                assert(all[some.len() as int] == ids[n]);
            }
            if !ids.take(n).contains(ids[n]) {
                lemma_firsts_are_listed(ids.take(n), budget);
            }
        }
    }
}

/// Nothing is taken that is not listed.
proof fn lemma_firsts_are_listed(ids: Seq<usize>, budget: nat)
    ensures
        forall|x: usize| firsts(ids, budget).contains(x) ==> #[trigger] ids.contains(x),
    decreases ids.len(),
{
    if ids.len() > 0 {
        let short = ids.drop_last();
        lemma_firsts_are_listed(short, budget);
        assert forall|x: usize| firsts(ids, budget).contains(x) implies #[trigger] ids.contains(x) by {
            let taken = firsts(short, budget);
            let i = choose|i: int| 0 <= i < firsts(ids, budget).len() && firsts(ids, budget)[i] == x;
            if i < taken.len() {
                assert(taken[i] == x);
                assert(taken.contains(x));
                assert(short.contains(x));
                let j = choose|j: int| 0 <= j < short.len() && short[j] == x;
                assert(ids[j] == x);
            } else {
                assert(ids[ids.len() - 1] == x);
            }
        }
    }
}

/// Of a list exactly the candidates with a score that is positive and finite are usable, in their
/// order.
pub proof fn law_usable_are_the_positive_and_finite(list: Seq<Scored>)
    ensures
        usable(list) == list.filter(|c: Scored| 0 < c.1 < 0x7f80_0000),
    decreases list.len(),
{
    reveal(Seq::filter);
    if list.len() > 0 {
        law_usable_are_the_positive_and_finite(list.drop_last());
    }
    assert(usable(list) =~= list.filter(|c: Scored| 0 < c.1 < 0x7f80_0000));
}

/// A ranking is a reordering in which a better score never stands behind a worse one, and of two that
/// score alike the lower id stands first.
pub proof fn law_better_scores_rank_first(list: Seq<Scored>, i: int, j: int)
    requires
        0 <= i < j < ranked(list).len(),
    ensures
        ranked(list).to_multiset() == list.to_multiset(),
        total_key(ranked(list)[i].1) >= total_key(ranked(list)[j].1),
        ranked(list)[i].1 == ranked(list)[j].1 ==> ranked(list)[i].0 <= ranked(list)[j].0,
{
    lemma_ranking_total();
    list.lemma_sort_by_ensures(ranking());
    assert(sorted_by(ranked(list), ranking()));
    assert(ranking()(ranked(list)[i], ranked(list)[j]));
}

} // verus!
