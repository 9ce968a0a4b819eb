//! Routing: the best of a list of scores, the experts of a token, and the
//! positions that sparse attention looks at.

use vstd::prelude::*;

use crate::floatbits::{number_key, value_key};
use crate::mxfp4::lemma_cell;
use crate::rank::contains_id;
use crate::settings::{switch_on, Settings};

verus! {

/// Whether a pattern is that of a number.
pub open spec fn is_number(bits: u32) -> bool {
    bits % 0x8000_0000 <= 0x7f80_0000
}

/// Whether all scores are numbers.
pub open spec fn all_numbers(scores: Seq<u32>) -> bool {
    forall|i: int| 0 <= i < scores.len() ==> is_number(#[trigger] scores[i])
}

/// Whether candidate `a` goes before candidate `b`: it scores more, or as much and
/// comes first.
pub open spec fn beats(scores: Seq<u32>, a: int, b: int) -> bool {
    value_key(scores[a]) > value_key(scores[b]) || (value_key(scores[a]) == value_key(scores[b])
        && a < b)
}

/// Whether a list holds the best `k` candidates, the best first.
pub open spec fn is_topk(scores: Seq<u32>, k: nat, r: Seq<usize>) -> bool {
    &&& r.len() == k
    &&& forall|i: int| 0 <= i < k ==> (#[trigger] r[i] as int) < scores.len()
    &&& forall|i: int, j: int|
        0 <= i < j < k ==> beats(scores, #[trigger] r[i] as int, #[trigger] r[j] as int)
    &&& forall|i: int, c: int|
        0 <= i < k && 0 <= c < scores.len() && !r.contains(c as usize) ==> #[trigger] beats(
            scores,
            r[i] as int,
            c,
        )
}

/// There is one such list.
pub proof fn law_topk_is_unique(scores: Seq<u32>, k: nat, r: Seq<usize>, s: Seq<usize>)
    requires
        is_topk(scores, k, r),
        is_topk(scores, k, s),
        scores.len() <= usize::MAX,
    ensures
        r == s,
{
    assert forall|i: int| 0 <= i < k implies r[i] == s[i] by {
        lemma_topk_prefix(scores, k, r, s, i);
    }
    assert(r =~= s);
}

proof fn lemma_topk_prefix(scores: Seq<u32>, k: nat, r: Seq<usize>, s: Seq<usize>, i: int)
    requires
        is_topk(scores, k, r),
        is_topk(scores, k, s),
        scores.len() <= usize::MAX,
        0 <= i < k,
    ensures
        r[i] == s[i],
    decreases i,
{
    if r[i] != s[i] {
        let (a, b) = (r[i] as int, s[i] as int);
        assert forall|j: int| 0 <= j < i implies r[j] == s[j] by {
            lemma_topk_prefix(scores, k, r, s, j);
        }
        if r.contains(s[i]) {
            let j = choose|j: int| 0 <= j < r.len() && r[j] == s[i];
            if j < i {
                assert(beats(scores, s[j] as int, s[i] as int));
            }
            assert(beats(scores, r[i] as int, r[j] as int));
        } else {
            assert(beats(scores, r[i] as int, b));
        }
        if s.contains(r[i]) {
            let j = choose|j: int| 0 <= j < s.len() && s[j] == r[i];
            if j < i {
                assert(beats(scores, r[j] as int, r[i] as int));
            }
            assert(beats(scores, s[i] as int, s[j] as int));
        } else {
            assert(beats(scores, s[i] as int, a));
        }
        assert(beats(scores, a, b) && beats(scores, b, a));
    }
}

/// Whether a candidate goes before another one as it stands: it scores more, or as much and
/// has the lower index. What is no number compares with nothing.
pub open spec fn displaces(scores: Seq<u32>, a: int, b: int) -> bool {
    is_number(scores[a]) && is_number(scores[b]) && beats(scores, a, b)
}

/// Which place of an order, from `i` up to `j`, holds the candidate that the others leave
/// standing when they are gone through one after the other.
pub open spec fn best_place(scores: Seq<u32>, order: Seq<usize>, i: int, j: int) -> int
    decreases j - i,
{
    if j <= i + 1 {
        i
    } else {
        let b = best_place(scores, order, i, j - 1);
        if displaces(scores, order[j - 1] as int, order[b] as int) {
            j - 1
        } else {
            b
        }
    }
}

/// An order with two of its places changed for one another.
pub open spec fn swapped(order: Seq<usize>, i: int, b: int) -> Seq<usize> {
    order.update(i, order[b]).update(b, order[i])
}

/// The order of the candidates once the first `k` places have been filled, each with the
/// best of what is left.
pub open spec fn selection(scores: Seq<u32>, k: nat) -> Seq<usize>
    decreases k,
{
    if k == 0 {
        Seq::new(scores.len(), |c: int| c as usize)
    } else {
        let order = selection(scores, (k - 1) as nat);
        swapped(order, k - 1, best_place(scores, order, k - 1, scores.len() as int))
    }
}

/// The first `k` candidates of that order.
pub open spec fn selected(scores: Seq<u32>, k: nat) -> Seq<usize> {
    selection(scores, k).take(k as int)
}

proof fn lemma_best_place(scores: Seq<u32>, order: Seq<usize>, i: int, j: int)
    requires
        0 <= i < j <= order.len(),
    ensures
        i <= best_place(scores, order, i, j) < j,
    decreases j - i,
{
    if j > i + 1 {
        lemma_best_place(scores, order, i, j - 1);
    }
}

/// Every candidate stands in the order once.
proof fn lemma_selection(scores: Seq<u32>, k: nat)
    requires
        k <= scores.len() <= usize::MAX,
    ensures
        selection(scores, k).len() == scores.len(),
        forall|i: int|
            0 <= i < scores.len() ==> (#[trigger] selection(scores, k)[i] as int) < scores.len(),
        selection(scores, k).no_duplicates(),
        forall|c: int| 0 <= c < scores.len() ==> #[trigger] selection(scores, k).contains(c as usize),
    decreases k,
{
    let order = selection(scores, k);
    if k == 0 {
        assert forall|c: int| 0 <= c < scores.len() implies #[trigger] order.contains(c as usize) by {
            assert(order[c] == c as usize);
        }
    } else {
        let before = selection(scores, (k - 1) as nat);
        let b = best_place(scores, before, k - 1, scores.len() as int);
        lemma_selection(scores, (k - 1) as nat);
        lemma_best_place(scores, before, k - 1, scores.len() as int);
        assert forall|c: int| 0 <= c < scores.len() implies #[trigger] order.contains(c as usize) by {
            assert(before.contains(c as usize));
            let m = choose|m: int| 0 <= m < before.len() && before[m] == c as usize;
            let at = if m == k - 1 {
                b
            } else if m == b {
                k - 1
            } else {
                m
            };
            assert(order[at] == c as usize);
        }
    }
}

/// Among numbers the place that is left standing holds the best of them.
proof fn lemma_best_of_numbers(scores: Seq<u32>, order: Seq<usize>, i: int, j: int)
    requires
        0 <= i < j <= order.len(),
        order.no_duplicates(),
        forall|m: int| 0 <= m < order.len() ==> (#[trigger] order[m] as int) < scores.len(),
        all_numbers(scores),
    ensures
        i <= best_place(scores, order, i, j) < j,
        forall|m: int|
            i <= m < j && m != best_place(scores, order, i, j) ==> beats(
                scores,
                order[best_place(scores, order, i, j)] as int,
                #[trigger] order[m] as int,
            ),
    decreases j - i,
{
    if j > i + 1 {
        lemma_best_of_numbers(scores, order, i, j - 1);
        let b = best_place(scores, order, i, j - 1);
        assert(order[b] != order[j - 1]);
        assert(is_number(scores[order[b] as int]) && is_number(scores[order[j - 1] as int]));
    }
}

proof fn lemma_selection_beats(scores: Seq<u32>, k: nat)
    requires
        k <= scores.len() <= usize::MAX,
        all_numbers(scores),
    ensures
        forall|i: int, j: int|
            0 <= i < k && i < j < scores.len() ==> beats(
                scores,
                #[trigger] selection(scores, k)[i] as int,
                #[trigger] selection(scores, k)[j] as int,
            ),
    decreases k,
{
    if k > 0 {
        let order = selection(scores, k);
        let before = selection(scores, (k - 1) as nat);
        let n = scores.len() as int;
        let b = best_place(scores, before, k - 1, n);
        lemma_selection(scores, (k - 1) as nat);
        lemma_selection_beats(scores, (k - 1) as nat);
        lemma_best_of_numbers(scores, before, k - 1, n);
        assert forall|i: int, j: int| 0 <= i < k && i < j < n implies beats(
            scores,
            #[trigger] order[i] as int,
            #[trigger] order[j] as int,
        ) by {
            let from = if j == b {
                k - 1
            } else {
                j
            };
            if i == k - 1 {
                assert(order[i] == before[b] && order[j] == before[from]);
            } else {
                let at = if j == k - 1 {
                    b
                } else {
                    from
                };
                assert(order[i] == before[i] && order[j] == before[at]);
            }
        }
    }
}

/// Where all scores are numbers, the best `k` candidates are picked, the best first.
pub proof fn law_the_best_are_selected(scores: Seq<u32>, k: nat)
    requires
        k <= scores.len() <= usize::MAX,
        all_numbers(scores),
    ensures
        is_topk(scores, k, selected(scores, k)),
{
    let order = selection(scores, k);
    let r = selected(scores, k);
    lemma_selection(scores, k);
    lemma_selection_beats(scores, k);
    assert forall|i: int, c: int|
        0 <= i < k && 0 <= c < scores.len() && !r.contains(c as usize) implies #[trigger] beats(
        scores,
        r[i] as int,
        c,
    ) by {
        assert(order.contains(c as usize));
        let m = choose|m: int| 0 <= m < order.len() && order[m] == c as usize;
        if m < k {
            assert(r[m] == c as usize);
        }
        assert(beats(scores, order[i] as int, order[m] as int));
    }
}

/// Whatever the scores are, as many candidates are picked as are asked for, none twice.
pub proof fn law_no_candidate_is_selected_twice(scores: Seq<u32>, k: nat)
    requires
        k <= scores.len() <= usize::MAX,
    ensures
        selected(scores, k).len() == k,
        selected(scores, k).no_duplicates(),
        forall|i: int| 0 <= i < k ==> (#[trigger] selected(scores, k)[i] as int) < scores.len(),
{
    lemma_selection(scores, k);
}

/// Whether a pattern is that of a number.
fn reads_as_number(bits: u32) -> (r: bool)
    ensures
        r == is_number(bits),
{
    bits % 0x8000_0000 <= 0x7f80_0000
}

/// Whether a candidate goes before another one as it stands.
fn takes_over(scores: &Vec<u32>, a: usize, b: usize) -> (r: bool)
    requires
        a < scores@.len(),
        b < scores@.len(),
    ensures
        r == displaces(scores@, a as int, b as int),
{
    let (x, y): (i64, i64) = (number_key(scores[a]), number_key(scores[b]));
    reads_as_number(scores[a]) && reads_as_number(scores[b]) && (x > y || (x == y && a < b))
}

/// Picks `k` candidates, each time the best of what is left; among equals the one that comes
/// first.
pub fn topk(scores: &Vec<u32>, k: usize) -> (r: Vec<usize>)
    requires
        k <= scores@.len(),
    ensures
        r@ == selected(scores@, k as nat),
{
    let n: usize = scores.len();
    let mut order: Vec<usize> = Vec::new();
    while order.len() < n
        invariant
            order@.len() <= n,
            forall|c: int| 0 <= c < order@.len() ==> #[trigger] order@[c] == c as usize,
        decreases n - order.len(),
    {
        let c: usize = order.len();
        order.push(c);
    }
    assert(order@ =~= selection(scores@, 0));
    let mut r: Vec<usize> = Vec::new();
    let mut i: usize = 0;
    assert(r@ =~= order@.take(0));
    while i < k
        invariant
            i <= k <= n,
            n == scores@.len(),
            order@ == selection(scores@, i as nat),
            order@.len() == n,
            r@ == order@.take(i as int),
        decreases k - i,
    {
        let mut best: usize = i;
        let mut j: usize = i + 1;
        proof {
            lemma_selection(scores@, i as nat);
        }
        while j < n
            invariant
                i < j <= n,
                i <= best < j,
                n == scores@.len(),
                order@.len() == n,
                forall|m: int| 0 <= m < n ==> (#[trigger] order@[m] as int) < n,
                best == best_place(scores@, order@, i as int, j as int),
            decreases n - j,
        {
            if takes_over(scores, order[j], order[best]) {
                best = j;
            }
            j = j + 1;
        }
        let (first, second): (usize, usize) = (order[i], order[best]);
        let ghost before = order@;
        order.set(i, second);
        order.set(best, first);
        r.push(second);
        assert(order@ =~= swapped(before, i as int, best as int));
        assert(selection(scores@, (i + 1) as nat) == swapped(before, i as int, best as int));
        assert(r@ =~= order@.take(i + 1));
        i = i + 1;
    }
    r
}

/// Which routes the layers took last, and how far each agreed with the one before.
#[derive(Debug)]
pub struct RouteHistory {
    pub previous: Vec<Vec<usize>>,
    pub common: Vec<u64>,
    pub total: Vec<u64>,
    pub pairs: Vec<u64>,
}

/// How many members of a list another list holds.
pub open spec fn shared_count(a: Seq<usize>, b: Seq<usize>) -> nat
    decreases a.len(),
{
    if a.len() == 0 {
        0
    } else {
        shared_count(a.drop_last(), b) + (if b.contains(a.last()) {
            1nat
        } else {
            0
        })
    }
}

/// No more are shared than there are.
pub proof fn lemma_shared_count(a: Seq<usize>, b: Seq<usize>)
    ensures
        shared_count(a, b) <= a.len(),
    decreases a.len(),
{
    if a.len() > 0 {
        lemma_shared_count(a.drop_last(), b);
    }
}

/// A route and the same route before it share all of it.
pub proof fn law_same_route_is_all_shared(a: Seq<usize>, b: Seq<usize>)
    requires
        forall|i: int| 0 <= i < a.len() ==> b.contains(#[trigger] a[i]),
    ensures
        shared_count(a, b) == a.len(),
    decreases a.len(),
{
    if a.len() > 0 {
        assert(b.contains(a[a.len() - 1]));
        law_same_route_is_all_shared(a.drop_last(), b);
    }
}

/// Counts how many members of a list another list holds.
fn count_shared(a: &Vec<usize>, b: &Vec<usize>) -> (n: u64)
    ensures
        n == shared_count(a@, b@),
{
    let mut n: u64 = 0;
    let mut i: usize = 0;
    assert(a@.take(0) =~= Seq::<usize>::empty());
    while i < a.len()
        invariant
            i <= a.len(),
            n <= i,
            n == shared_count(a@.take(i as int), b@),
        decreases a.len() - i,
    {
        proof {
            assert(a@.take(i + 1).drop_last() =~= a@.take(i as int));
        }
        if contains_id(b, a[i]) {
            n = n + 1;
        }
        i = i + 1;
    }
    assert(a@.take(a@.len() as int) =~= a@);
    n
}

impl RouteHistory {
    /// One entry of each kind for every layer.
    pub open spec fn wf(self, layers: nat) -> bool {
        &&& self.previous@.len() == layers
        &&& self.common@.len() == layers
        &&& self.total@.len() == layers
        &&& self.pairs@.len() == layers
    }

    /// Takes the route of a layer. Where overlaps are asked for, it is held against the
    /// route before it, if that has the same length and is not empty.
    pub fn record(&mut self, settings: &Settings, layers: usize, l: usize, route: Vec<usize>)
        requires
            old(self).wf(layers as nat),
            l < layers,
            old(self).common@[l as int] + route@.len() <= u64::MAX,
            old(self).total@[l as int] + route@.len() <= u64::MAX,
            old(self).pairs@[l as int] < u64::MAX,
        ensures
            final(self).wf(layers as nat),
            final(self).previous@ == old(self).previous@.update(l as int, route),
            ({
                let before = old(self).previous@[l as int]@;
                let counted = switch_on(settings.value("QWEN_ROUTE_OVERLAP"@), false)
                    && before.len() == route@.len() && before.len() > 0;
                if counted {
                    &&& final(self).common@ == old(self).common@.update(
                        l as int,
                        (old(self).common@[l as int] + shared_count(route@, before)) as u64,
                    )
                    &&& final(self).total@ == old(self).total@.update(
                        l as int,
                        (old(self).total@[l as int] + route@.len()) as u64,
                    )
                    &&& final(self).pairs@ == old(self).pairs@.update(
                        l as int,
                        (old(self).pairs@[l as int] + 1) as u64,
                    )
                } else {
                    &&& final(self).common@ == old(self).common@
                    &&& final(self).total@ == old(self).total@
                    &&& final(self).pairs@ == old(self).pairs@
                }
            }),
    {
        if settings.on("QWEN_ROUTE_OVERLAP", false) {
            let n: usize = self.previous[l].len();
            if n == route.len() && n > 0 {
                let shared: u64 = count_shared(&route, &self.previous[l]);
                proof {
                    lemma_shared_count(route@, self.previous@[l as int]@);
                }
                let c: u64 = self.common[l];
                self.common.set(l, c + shared);
                let t: u64 = self.total[l];
                self.total.set(l, t + route.len() as u64);
                let p: u64 = self.pairs[l];
                self.pairs.set(l, p + 1);
            }
        }
        self.previous.set(l, route);
    }
}

/// The experts of a route that are not resident, in its order.
pub open spec fn cold_of(route: Seq<usize>, resident: Seq<bool>) -> Seq<u32>
    decreases route.len(),
{
    if route.len() == 0 {
        Seq::empty()
    } else {
        let rest = cold_of(route.drop_last(), resident);
        if resident[route.len() - 1] {
            rest
        } else {
            rest.push(route.last() as u32)
        }
    }
}

/// The experts of a route that are not resident.
pub fn cold_experts(route: &Vec<usize>, resident: &Vec<bool>) -> (r: Vec<u32>)
    requires
        route@.len() <= resident@.len(),
    ensures
        r@ == cold_of(route@, resident@),
{
    let mut r: Vec<u32> = Vec::new();
    let mut i: usize = 0;
    assert(route@.take(0) =~= Seq::<usize>::empty());
    while i < route.len()
        invariant
            i <= route.len(),
            route@.len() <= resident@.len(),
            r@ == cold_of(route@.take(i as int), resident@),
        decreases route.len() - i,
    {
        proof {
            assert(route@.take(i + 1).drop_last() =~= route@.take(i as int));
        }
        if !resident[i] {
            r.push(route[i] as u32);
        }
        i = i + 1;
    }
    assert(route@.take(route@.len() as int) =~= route@);
    r
}

/// A route blocks exactly where an expert of it is not resident.
pub proof fn law_a_warm_route_does_not_block(route: Seq<usize>, resident: Seq<bool>)
    requires
        route.len() <= resident.len(),
    ensures
        cold_of(route, resident).len() == 0 <==> forall|i: int|
            0 <= i < route.len() ==> #[trigger] resident[i],
    decreases route.len(),
{
    if route.len() > 0 {
        law_a_warm_route_does_not_block(route.drop_last(), resident);
    }
}

/// How many of a list of marks say that something is missing.
pub open spec fn missing(marks: Seq<bool>) -> nat {
    marks.filter(|here: bool| !here).len()
}

proof fn lemma_missing_grows(resident: Seq<bool>, i: int)
    requires
        0 <= i < resident.len(),
    ensures
        missing(resident.take(i + 1)) == missing(resident.take(i)) + (if resident[i] {
            0nat
        } else {
            1nat
        }),
{
    reveal(Seq::filter);
    assert(resident.take(i + 1).drop_last() =~= resident.take(i));
}

/// As many experts are reported as places of the route are not resident, and in the order of the
/// route: behind as many reported experts as places before it are not resident stands the expert of
/// each place that is not. No resident place is reported.
pub proof fn law_exactly_the_missing_are_reported(route: Seq<usize>, resident: Seq<bool>)
    requires
        route.len() <= resident.len(),
    ensures
        cold_of(route, resident).len() == missing(resident.take(route.len() as int)),
        forall|i: int|
            0 <= i < route.len() && !#[trigger] resident[i] ==> missing(resident.take(i))
                < cold_of(route, resident).len() && cold_of(route, resident)[missing(
                resident.take(i),
            ) as int] == route[i] as u32,
    decreases route.len(),
{
    if route.len() == 0 {
        reveal(Seq::filter);
        assert(resident.take(0) =~= Seq::empty());
    } else {
        let n = route.len() - 1;
        let short = route.drop_last();
        law_exactly_the_missing_are_reported(short, resident);
        lemma_missing_grows(resident, n);
        assert forall|i: int| 0 <= i < route.len() && !#[trigger] resident[i] implies missing(
            resident.take(i),
        ) < cold_of(route, resident).len() && cold_of(route, resident)[missing(
            resident.take(i),
        ) as int] == route[i] as u32 by {
            if i < n {
                assert(short[i] == route[i]);
            }
        }
    }
}

/// Every reported expert stands in the route at a place that is not resident.
pub proof fn law_every_reported_expert_is_missing(route: Seq<usize>, resident: Seq<bool>, j: int)
    requires
        route.len() <= resident.len(),
        0 <= j < cold_of(route, resident).len(),
    ensures
        exists|i: int|
            0 <= i < route.len() && !#[trigger] resident[i] && missing(resident.take(i)) == j
                && cold_of(route, resident)[j] == route[i] as u32,
    decreases route.len(),
{
    let n = route.len() - 1;
    let short = route.drop_last();
    law_exactly_the_missing_are_reported(short, resident);
    if j < cold_of(short, resident).len() {
        law_every_reported_expert_is_missing(short, resident, j);
        let i = choose|i: int|
            0 <= i < short.len() && !#[trigger] resident[i] && missing(resident.take(i)) == j
                && cold_of(short, resident)[j] == short[i] as u32;
        assert(!resident[i] && route[i] == short[i]);
    } else {
        assert(!resident[n]);
    }
}

/// The positions that sparse attention looks at: the whole blocks that were
/// chosen, in their order, and what is behind the last whole block.
pub open spec fn positions_of(chosen: Seq<usize>, len: int, ratio: int) -> Seq<usize> {
    let whole = chosen.len() * ratio;
    let end = len / ratio * ratio;
    Seq::new(
        (whole + len - end) as nat,
        |p: int|
            if p < whole {
                (chosen[p / ratio] * ratio + p % ratio) as usize
            } else {
                (end + p - whole) as usize
            },
    )
}

/// How many blocks are chosen of as many tokens.
pub open spec fn blocks_chosen(len: int, ratio: int, budget: int) -> nat {
    if budget / ratio > len / ratio {
        (len / ratio) as nat
    } else {
        (budget / ratio) as nat
    }
}

/// Chooses the positions for sparse attention over `len` tokens. There is a score
/// for every whole block of `ratio` tokens, and as many blocks are taken as the
/// budget has room for, the best first.
pub fn qsa_positions(scores: &Vec<u32>, len: usize, ratio: usize, budget: usize) -> (r: Vec<usize>)
    requires
        ratio >= 1,
        scores@.len() == len as int / ratio as int,
    ensures
        r@ == positions_of(
            selected(scores@, blocks_chosen(len as int, ratio as int, budget as int)),
            len as int,
            ratio as int,
        ),
{
    let nblk: usize = len / ratio;
    let most: usize = budget / ratio;
    let k: usize = if most > nblk {
        nblk
    } else {
        most
    };
    let chosen: Vec<usize> = topk(scores, k);
    let ghost want = positions_of(chosen@, len as int, ratio as int);
    proof {
        law_no_candidate_is_selected_twice(scores@, k as nat);
    }
    let mut r: Vec<usize> = Vec::new();
    let mut i: usize = 0;
    proof {
        vstd::arithmetic::div_mod::lemma_fundamental_div_mod(len as int, ratio as int);
        assert(nblk * ratio <= len) by (nonlinear_arith)
            requires
                len == ratio * nblk + len % ratio,
                len % ratio >= 0,
        ;
        assert(0 * ratio == 0);
        assert(chosen@.len() * ratio >= 0) by (nonlinear_arith)
            requires
                ratio >= 1,
        ;
    }
    while i < chosen.len()
        invariant
            ratio >= 1,
            nblk * ratio <= len,
            nblk == len as int / ratio as int,
            scores@.len() == nblk,
            chosen@.len() == k,
            forall|j: int| 0 <= j < k ==> (#[trigger] chosen@[j] as int) < nblk,
            i <= chosen@.len(),
            want == positions_of(chosen@, len as int, ratio as int),
            r@.len() == i * ratio,
            forall|p: int| 0 <= p < r@.len() ==> #[trigger] r@[p] == want[p],
        decreases chosen.len() - i,
    {
        let b: usize = chosen[i];
        let mut t: usize = 0;
        proof {
            assert(b * ratio + ratio <= nblk * ratio) by (nonlinear_arith)
                requires
                    b + 1 <= nblk,
                    ratio >= 0,
            ;
        }
        while t < ratio
            invariant
                ratio >= 1,
                nblk * ratio <= len,
                nblk == len as int / ratio as int,
                b * ratio + ratio <= nblk * ratio,
                chosen@.len() == k,
                i < chosen@.len(),
                b == chosen@[i as int],
                t <= ratio,
                want == positions_of(chosen@, len as int, ratio as int),
                r@.len() == i * ratio + t,
                forall|p: int| 0 <= p < r@.len() ==> #[trigger] r@[p] == want[p],
            decreases ratio - t,
        {
            proof {
                lemma_cell(chosen@.len(), ratio as nat, i as int, t as int);
                assert(0 <= b * ratio) by (nonlinear_arith)
                    requires
                        b >= 0,
                        ratio >= 0,
                ;
            }
            r.push(b * ratio + t);
            assert(r@[i * ratio + t] == want[i * ratio + t]);
            t = t + 1;
        }
        assert(i * ratio + ratio == (i + 1) * ratio) by (nonlinear_arith);
        i = i + 1;
    }
    let mut p: usize = nblk * ratio;
    while p < len
        invariant
            nblk * ratio <= p <= len,
            nblk == len as int / ratio as int,
            want == positions_of(chosen@, len as int, ratio as int),
            chosen@.len() * ratio >= 0,
            r@.len() == chosen@.len() * ratio + (p - nblk * ratio),
            forall|p: int| 0 <= p < r@.len() ==> #[trigger] r@[p] == want[p],
        decreases len - p,
    {
        r.push(p);
        assert(r@[r@.len() - 1] == want[r@.len() - 1]);
        p = p + 1;
    }
    assert(r@ =~= want);
    r
}

/// Where a position of a chosen block lies.
proof fn lemma_block_position(chosen: Seq<usize>, len: int, ratio: int, p: int)
    requires
        0 <= len <= usize::MAX,
        ratio >= 1,
        forall|i: int| 0 <= i < chosen.len() ==> (#[trigger] chosen[i] as int) < len / ratio,
        0 <= p < chosen.len() * ratio,
    ensures
        0 <= p / ratio < chosen.len(),
        0 <= p % ratio < ratio,
        p == p / ratio * ratio + p % ratio,
        p < positions_of(chosen, len, ratio).len(),
        positions_of(chosen, len, ratio)[p] == chosen[p / ratio] * ratio + p % ratio,
        positions_of(chosen, len, ratio)[p] < len / ratio * ratio,
        len / ratio * ratio <= len,
{
    let (b, t) = (p / ratio, p % ratio);
    let n = len / ratio;
    vstd::arithmetic::div_mod::lemma_fundamental_div_mod(p, ratio);
    vstd::arithmetic::div_mod::lemma_fundamental_div_mod(len, ratio);
    assert(0 <= b < chosen.len()) by (nonlinear_arith)
        requires
            p == ratio * b + t,
            0 <= t < ratio,
            0 <= p < chosen.len() * ratio,
    ;
    assert(p == b * ratio + t) by (nonlinear_arith)
        requires
            p == ratio * b + t,
    ;
    let c = chosen[b] as int;
    assert(c < n);
    assert(0 <= c * ratio && c * ratio + ratio <= n * ratio) by (nonlinear_arith)
        requires
            0 <= c,
            c + 1 <= n,
            ratio >= 1,
    ;
    assert(n * ratio <= len) by (nonlinear_arith)
        requires
            len == ratio * n + len % ratio,
            0 <= len % ratio,
    ;
}

/// No position lies ahead, none is looked at twice, and what is behind the last
/// whole block is looked at.
pub proof fn law_positions_are_causal(scores: Seq<u32>, len: int, ratio: int, budget: int)
    requires
        0 <= len <= usize::MAX,
        ratio >= 1,
        budget >= 0,
        scores.len() == len / ratio,
    ensures
        ({
            let r = positions_of(selected(scores, blocks_chosen(len, ratio, budget)), len, ratio);
            &&& forall|p: int| 0 <= p < r.len() ==> (#[trigger] r[p] as int) < len
            &&& forall|p: int, q: int| 0 <= p < q < r.len() ==> #[trigger] r[p] != #[trigger] r[q]
            &&& forall|t: int| len / ratio * ratio <= t < len ==> #[trigger] r.contains(t as usize)
        }),
{
    let k = blocks_chosen(len, ratio, budget);
    let chosen = selected(scores, k);
    let r = positions_of(chosen, len, ratio);
    let n = len / ratio;
    let whole = chosen.len() * ratio;
    let end = n * ratio;
    vstd::arithmetic::div_mod::lemma_fundamental_div_mod(len, ratio);
    assert(0 <= n <= len) by (nonlinear_arith)
        requires
            len == ratio * n + len % ratio,
            0 <= len % ratio < ratio,
            0 <= len,
            ratio >= 1,
    ;
    assert(budget / ratio >= 0) by (nonlinear_arith)
        requires
            budget >= 0,
            ratio >= 1,
    ;
    law_no_candidate_is_selected_twice(scores, k);
    assert(0 <= end <= len) by (nonlinear_arith)
        requires
            len == ratio * n + len % ratio,
            0 <= len % ratio,
            end == n * ratio,
            n >= 0,
            ratio >= 1,
    ;
    assert(whole >= 0) by (nonlinear_arith)
        requires
            whole == chosen.len() * ratio,
            ratio >= 1,
    ;
    assert forall|p: int| 0 <= p < r.len() implies (#[trigger] r[p] as int) < len by {
        if p < whole {
            lemma_block_position(chosen, len, ratio, p);
        }
    }
    assert forall|p: int, q: int| 0 <= p < q < r.len() implies #[trigger] r[p] != #[trigger] r[q] by {
        if p < whole {
            lemma_block_position(chosen, len, ratio, p);
        }
        if q < whole {
            lemma_block_position(chosen, len, ratio, q);
            let (b, t) = (p / ratio, p % ratio);
            let (d, u) = (q / ratio, q % ratio);
            if b == d {
                assert(t != u);
            } else {
                assert(b < d) by (nonlinear_arith)
                    requires
                        p == b * ratio + t,
                        q == d * ratio + u,
                        p < q,
                        0 <= t < ratio,
                        0 <= u < ratio,
                        b != d,
                ;
                let (x, y) = (chosen[b] as int, chosen[d] as int);
                assert(x != y);
                assert(x * ratio + t != y * ratio + u) by (nonlinear_arith)
                    requires
                        x != y,
                        0 <= t < ratio,
                        0 <= u < ratio,
                ;
            }
        }
    }
    assert forall|t: int| end <= t < len implies #[trigger] r.contains(t as usize) by {
        assert(r[whole + (t - end)] == t as usize);
    }
}

/// The budget is used up as far as whole blocks go: what is looked at of whole blocks is no more
/// than the budget, and either that is every whole block or less than a block of the budget is left.
/// The rest is what stands behind the last whole block.
pub proof fn law_the_budget_is_used_in_whole_blocks(
    scores: Seq<u32>,
    len: int,
    ratio: int,
    budget: int,
)
    requires
        0 <= len <= usize::MAX,
        ratio >= 1,
        budget >= 0,
        scores.len() == len / ratio,
    ensures
        ({
            let r = positions_of(selected(scores, blocks_chosen(len, ratio, budget)), len, ratio);
            let whole = r.len() - len % ratio;
            &&& 0 <= whole <= budget
            &&& whole % ratio == 0
            &&& whole + len % ratio <= len
            &&& whole + len % ratio == len || budget - whole < ratio
        }),
{
    let k = blocks_chosen(len, ratio, budget);
    let chosen = selected(scores, k);
    let r = positions_of(chosen, len, ratio);
    let (n, m) = (len / ratio, budget / ratio);
    let whole = k * ratio;
    vstd::arithmetic::div_mod::lemma_fundamental_div_mod(len, ratio);
    vstd::arithmetic::div_mod::lemma_fundamental_div_mod(budget, ratio);
    vstd::arithmetic::div_mod::lemma_div_pos_is_pos(len, ratio);
    vstd::arithmetic::div_mod::lemma_div_pos_is_pos(budget, ratio);
    assert(n * ratio == ratio * n && m * ratio == ratio * m) by (nonlinear_arith);
    assert(n <= len) by (nonlinear_arith)
        requires
            len == ratio * n + len % ratio,
            0 <= len % ratio,
            0 <= n,
            ratio >= 1,
    ;
    law_no_candidate_is_selected_twice(scores, k);
    assert(chosen.len() == k);
    assert(0 <= whole && whole <= n * ratio && whole <= m * ratio) by (nonlinear_arith)
        requires
            whole == k * ratio,
            0 <= k,
            k <= n,
            k <= m,
            ratio >= 1,
    ;
    assert(r.len() == whole + len % ratio);
    vstd::arithmetic::div_mod::lemma_mod_multiples_basic(k as int, ratio);
}

/// The chosen blocks are the best there are: where all scores are numbers, a whole block is looked
/// at in full or not at all, one that is looked at scores no less than one that is not, and of two
/// that are the first looked at scores no less.
pub proof fn law_the_best_blocks_are_looked_at(
    scores: Seq<u32>,
    len: int,
    ratio: int,
    budget: int,
    p: int,
    b: int,
)
    requires
        0 <= len <= usize::MAX,
        ratio >= 1,
        budget >= 0,
        scores.len() == len / ratio,
        all_numbers(scores),
        0 <= p,
        p + len % ratio < positions_of(
            selected(scores, blocks_chosen(len, ratio, budget)),
            len,
            ratio,
        ).len(),
        0 <= b < scores.len(),
    ensures
        ({
            let r = positions_of(selected(scores, blocks_chosen(len, ratio, budget)), len, ratio);
            let a = r[p] as int / ratio;
            &&& 0 <= a < scores.len()
            &&& r[p] as int % ratio == p % ratio
            &&& (forall|q: int| 0 <= q < r.len() ==> #[trigger] r[q] as int / ratio != b)
                ==> value_key(scores[a]) >= value_key(scores[b])
            &&& forall|q: int|
                p <= q && q + len % ratio < r.len() ==> value_key(scores[a]) >= value_key(
                    scores[#[trigger] r[q] as int / ratio],
                )
        }),
{
    let k = blocks_chosen(len, ratio, budget);
    let chosen = selected(scores, k);
    let r = positions_of(chosen, len, ratio);
    let n = len / ratio;
    law_the_budget_is_used_in_whole_blocks(scores, len, ratio, budget);
    vstd::arithmetic::div_mod::lemma_fundamental_div_mod(len, ratio);
    vstd::arithmetic::div_mod::lemma_div_pos_is_pos(len, ratio);
    vstd::arithmetic::div_mod::lemma_div_pos_is_pos(budget, ratio);
    assert(n * ratio == ratio * n) by (nonlinear_arith);
    assert(n <= len) by (nonlinear_arith)
        requires
            len == ratio * n + len % ratio,
            0 <= len % ratio,
            0 <= n,
            ratio >= 1,
    ;
    law_the_best_are_selected(scores, k);
    let whole = k * ratio;
    assert(whole >= 0) by (nonlinear_arith)
        requires
            whole == k * ratio,
            k >= 0,
            ratio >= 1,
    ;
    assert(r.len() == whole + len % ratio);
    assert forall|q: int| 0 <= q < whole implies #[trigger] r[q] as int / ratio == chosen[q / ratio]
        && r[q] as int % ratio == q % ratio && 0 <= q / ratio < k by {
        lemma_block_position(chosen, len, ratio, q);
        vstd::arithmetic::div_mod::lemma_fundamental_div_mod_converse(
            r[q] as int,
            ratio,
            chosen[q / ratio] as int,
            q % ratio,
        );
    }
    let a = r[p] as int / ratio;
    assert(a == chosen[p / ratio]);
    if forall|q: int| 0 <= q < r.len() ==> #[trigger] r[q] as int / ratio != b {
        if chosen.contains(b as usize) {
            let i = choose|i: int| 0 <= i < chosen.len() && chosen[i] == b as usize;
            let q = i * ratio;
            assert(0 <= q < whole) by (nonlinear_arith)
                requires
                    q == i * ratio,
                    whole == k * ratio,
                    0 <= i,
                    i + 1 <= k,
                    ratio >= 1,
            ;
            vstd::arithmetic::div_mod::lemma_div_multiples_vanish(i, ratio);
            assert(ratio * i == q) by (nonlinear_arith)
                requires
                    q == i * ratio,
            ;
            assert(r[q] as int / ratio == chosen[q / ratio]);
        }
        assert(beats(scores, chosen[p / ratio] as int, b));
    }
    assert forall|q: int| p <= q && q + len % ratio < r.len() implies value_key(scores[a])
        >= value_key(scores[#[trigger] r[q] as int / ratio]) by {
        assert(r[q] as int / ratio == chosen[q / ratio]);
        vstd::arithmetic::div_mod::lemma_div_is_ordered(p, q, ratio);
        if p / ratio < q / ratio {
            assert(beats(scores, chosen[p / ratio] as int, chosen[q / ratio] as int));
        }
    }
}

} // verus!
