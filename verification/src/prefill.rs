//! Prefill: how a chunk of tokens goes through the layers, and how the rows of a
//! chunk are grouped by the experts they are routed to.

use vstd::prelude::*;

use crate::mxfp4::lemma_cell;
use crate::rank::{firsts, lemma_firsts, push_unique};
use crate::settings::{switch_on, Settings};

verus! {

/// A token to feed, where it stands, and whether its logits are wanted.
#[derive(Clone, Copy, Debug, PartialEq, Eq, Structural)]
pub struct PrefillStep {
    pub token: u32,
    pub pos: usize,
    pub logits: bool,
}

/// How a chunk is fed.
#[derive(Debug)]
pub enum PrefillPlan {
    /// There is nothing to feed.
    Nothing,
    /// One token after the other.
    TokenWise(Vec<PrefillStep>),
    /// All rows through one layer after the other.
    LayerMajor,
}

/// Why a chunk cannot be fed.
#[derive(Clone, Copy, Debug, PartialEq, Eq, Structural)]
pub enum PrefillFault {
    /// The scheduler cannot stop between the rows of a layer.
    Scheduled,
}

/// The step of row `i` of a chunk.
pub open spec fn step_of(tokens: Seq<u32>, start: int, last: bool, i: int) -> PrefillStep {
    PrefillStep {
        token: tokens[i],
        pos: (start + i) as usize,
        logits: last && i == tokens.len() - 1,
    }
}

/// Plans how a chunk is fed: the lanes of a model decide. Only the last row has
/// logits, and only where they are wanted.
pub fn prefill_plan(tokens: &[u32], start: usize, last: bool, scheduled: bool, lanes: usize) -> (r:
    Result<PrefillPlan, PrefillFault>)
    requires
        start + tokens@.len() <= usize::MAX,
    ensures
        if tokens@.len() == 0 {
            r matches Ok(PrefillPlan::Nothing)
        } else if scheduled {
            r matches Err(PrefillFault::Scheduled)
        } else if lanes == 0 {
            r matches Ok(PrefillPlan::TokenWise(steps)) && steps@ == Seq::new(
                tokens@.len(),
                |i: int| step_of(tokens@, start as int, last, i),
            )
        } else {
            r matches Ok(PrefillPlan::LayerMajor)
        },
{
    assert(tokens.len() == tokens@.len());
    if tokens.len() == 0 {
        return Ok(PrefillPlan::Nothing);
    }
    if scheduled {
        return Err(PrefillFault::Scheduled);
    }
    if lanes != 0 {
        return Ok(PrefillPlan::LayerMajor);
    }
    let mut steps: Vec<PrefillStep> = Vec::new();
    let mut i: usize = 0;
    while i < tokens.len()
        invariant
            tokens.len() == tokens@.len(),
            start + tokens@.len() <= usize::MAX,
            i <= tokens.len(),
            steps@.len() == i,
            forall|k: int|
                0 <= k < i ==> #[trigger] steps@[k] == step_of(tokens@, start as int, last, k),
        decreases tokens.len() - i,
    {
        steps.push(
            PrefillStep {
                token: tokens[i],
                pos: start + i,
                logits: last && i + 1 == tokens.len(),
            },
        );
        i = i + 1;
    }
    assert(steps@ =~= Seq::new(
        tokens@.len(),
        |i: int| step_of(tokens@, start as int, last, i),
    ));
    Ok(PrefillPlan::TokenWise(steps))
}

/// The experts of the first `n` rows, row by row, the best `k` of each.
pub open spec fn routed(routes: Seq<Vec<usize>>, n: int, k: int) -> Seq<usize>
    decreases n,
{
    if n <= 0 {
        Seq::empty()
    } else {
        routed(routes, n - 1, k) + routes[n - 1]@.take(k)
    }
}

/// Every expert that the rows are routed to, once, in the order in which they
/// first come.
pub fn unique_experts(routes: &Vec<Vec<usize>>, k: usize) -> (r: Vec<usize>)
    requires
        forall|i: int| 0 <= i < routes@.len() ==> (#[trigger] routes@[i])@.len() >= k,
    ensures
        r@ == firsts(routed(routes@, routes@.len() as int, k as int), usize::MAX as nat),
{
    let mut r: Vec<usize> = Vec::new();
    let mut row: usize = 0;
    while row < routes.len()
        invariant
            forall|i: int| 0 <= i < routes@.len() ==> (#[trigger] routes@[i])@.len() >= k,
            row <= routes.len(),
            r@ == firsts(routed(routes@, row as int, k as int), usize::MAX as nat),
        decreases routes.len() - row,
    {
        let ghost done = routed(routes@, row as int, k as int);
        let ghost one = routes@[row as int]@;
        let mut i: usize = 0;
        assert(done + one.take(0) =~= done);
        while i < k
            invariant
                row < routes.len(),
                one == routes@[row as int]@,
                one.len() >= k,
                i <= k,
                r@ == firsts(done + one.take(i as int), usize::MAX as nat),
            decreases k - i,
        {
            proof {
                let next = done + one.take(i + 1);
                assert(next.drop_last() =~= done + one.take(i as int));
                assert(next.last() == one[i as int]);
            }
            let e: usize = routes[row][i];
            push_unique(&mut r, e, usize::MAX);
            i = i + 1;
        }
        row = row + 1;
    }
    r
}

/// The places among the first `n` ranks of a row at which an expert stands.
pub open spec fn hits_in(route: Seq<usize>, expert: usize, row: usize, n: int) -> Seq<(usize, usize)>
    decreases n,
{
    if n <= 0 {
        Seq::empty()
    } else if route[n - 1] == expert {
        hits_in(route, expert, row, n - 1).push((row, (n - 1) as usize))
    } else {
        hits_in(route, expert, row, n - 1)
    }
}

/// The places of the first `n` rows at which an expert stands.
pub open spec fn hits(routes: Seq<Vec<usize>>, expert: usize, n: int, k: int) -> Seq<(usize, usize)>
    decreases n,
{
    if n <= 0 {
        Seq::empty()
    } else {
        hits(routes, expert, n - 1, k) + hits_in(routes[n - 1]@, expert, (n - 1) as usize, k)
    }
}

/// The places of all rows, grouped by the first `n` experts.
pub open spec fn grouped(routes: Seq<Vec<usize>>, experts: Seq<usize>, n: int, k: int) -> Seq<
    (usize, usize),
>
    decreases n,
{
    if n <= 0 {
        Seq::empty()
    } else {
        grouped(routes, experts, n - 1, k) + hits(
            routes,
            experts[n - 1],
            routes.len() as int,
            k,
        )
    }
}

/// The rows of a chunk by expert: for every group where it begins, and for every
/// grouped row which row and rank it is.
#[derive(Debug)]
pub struct Grouping {
    pub row_offsets: Vec<i32>,
    pub scatter: Vec<(usize, usize)>,
}

/// Groups the rows of a chunk by expert. Nothing comes of more grouped rows than a
/// device can number.
pub fn group_rows(routes: &Vec<Vec<usize>>, experts: &Vec<usize>, k: usize) -> (r: Option<Grouping>)
    requires
        forall|i: int| 0 <= i < routes@.len() ==> (#[trigger] routes@[i])@.len() >= k,
    ensures
        match r {
            Some(g) => {
                &&& g.scatter@ == grouped(routes@, experts@, experts@.len() as int, k as int)
                &&& g.row_offsets@.len() == experts@.len() + 1
                &&& forall|u: int|
                    0 <= u <= experts@.len() ==> #[trigger] g.row_offsets@[u] == grouped(
                        routes@,
                        experts@,
                        u,
                        k as int,
                    ).len()
            },
            None => exists|u: int|
                0 <= u <= experts@.len() && #[trigger] grouped(routes@, experts@, u, k as int).len()
                    > i32::MAX,
        },
{
    let mut scatter: Vec<(usize, usize)> = Vec::new();
    let mut offsets: Vec<i32> = Vec::new();
    offsets.push(0);
    let mut u: usize = 0;
    while u < experts.len()
        invariant
            forall|i: int| 0 <= i < routes@.len() ==> (#[trigger] routes@[i])@.len() >= k,
            u <= experts.len(),
            scatter@ == grouped(routes@, experts@, u as int, k as int),
            scatter@.len() <= i32::MAX,
            offsets@.len() == u + 1,
            forall|v: int|
                0 <= v <= u ==> #[trigger] offsets@[v] == grouped(
                    routes@,
                    experts@,
                    v,
                    k as int,
                ).len(),
        decreases experts.len() - u,
    {
        let e: usize = experts[u];
        let ghost start = scatter@;
        let mut row: usize = 0;
        assert(start + hits(routes@, e, 0, k as int) =~= start);
        while row < routes.len()
            invariant
                forall|i: int| 0 <= i < routes@.len() ==> (#[trigger] routes@[i])@.len() >= k,
                row <= routes.len(),
                scatter@ == start + hits(routes@, e, row as int, k as int),
            decreases routes.len() - row,
        {
            let ghost before = scatter@;
            let ghost one = routes@[row as int]@;
            let mut rank: usize = 0;
            assert(before + hits_in(one, e, row, 0) =~= before);
            while rank < k
                invariant
                    row < routes.len(),
                    one == routes@[row as int]@,
                    one.len() >= k,
                    rank <= k,
                    scatter@ == before + hits_in(one, e, row, rank as int),
                decreases k - rank,
            {
                if routes[row][rank] == e {
                    scatter.push((row, rank));
                    assert(scatter@ =~= before + hits_in(one, e, row, rank + 1));
                }
                rank = rank + 1;
            }
            assert(scatter@ =~= start + hits(routes@, e, row + 1, k as int));
            row = row + 1;
        }
        assert(scatter@ == grouped(routes@, experts@, u + 1, k as int));
        if scatter.len() > 0x7fff_ffff {
            return None;
        }
        offsets.push(scatter.len() as i32);
        u = u + 1;
    }
    Some(Grouping { row_offsets: offsets, scatter })
}

/// A row has a hit exactly where the expert stands, and no place twice.
proof fn lemma_hits_in(route: Seq<usize>, expert: usize, row: usize, n: int)
    requires
        0 <= n <= usize::MAX,
        n <= route.len(),
    ensures
        forall|x: (usize, usize)| #[trigger]
            hits_in(route, expert, row, n).contains(x) <==> x.0 == row && x.1 < n && route[x.1 as int]
                == expert,
        hits_in(route, expert, row, n).no_duplicates(),
    decreases n,
{
    if n > 0 {
        lemma_hits_in(route, expert, row, n - 1);
        let a = hits_in(route, expert, row, n - 1);
        let b = hits_in(route, expert, row, n);
        if route[n - 1] == expert {
            let y = (row, (n - 1) as usize);
            assert forall|x: (usize, usize)| #[trigger] b.contains(x) <==> x.0 == row && x.1 < n
                && route[x.1 as int] == expert by {
                if b.contains(x) {
                    let i = choose|i: int| 0 <= i < b.len() && b[i] == x;
                    if i < a.len() {
                        assert(a[i] == x);
                        assert(a.contains(x));
                    }
                }
                if x.0 == row && x.1 < n && route[x.1 as int] == expert {
                    if x.1 == n - 1 {
                        assert(b[a.len() as int] == x);
                    } else {
                        assert(a.contains(x));
                        let i = choose|i: int| 0 <= i < a.len() && a[i] == x;
                        assert(b[i] == x);
                    }
                }
            }
            assert forall|i: int, j: int| 0 <= i < b.len() && 0 <= j < b.len() && i != j implies b[i]
                != b[j] by {
                if i == a.len() {
                    assert(a.contains(a[j]));
                } else if j == a.len() {
                    assert(a.contains(a[i]));
                }
            }
        }
    }
}

/// The places of an expert are those at which it stands, and no place comes twice.
proof fn lemma_hits(routes: Seq<Vec<usize>>, expert: usize, n: int, k: int)
    requires
        0 <= n <= routes.len() <= usize::MAX,
        0 <= k <= usize::MAX,
        forall|i: int| 0 <= i < routes.len() ==> (#[trigger] routes[i])@.len() >= k,
    ensures
        forall|x: (usize, usize)| #[trigger]
            hits(routes, expert, n, k).contains(x) <==> x.0 < n && x.1 < k && routes[x.0 as int]@[x.1 as int]
                == expert,
        hits(routes, expert, n, k).no_duplicates(),
    decreases n,
{
    if n > 0 {
        lemma_hits(routes, expert, n - 1, k);
        let a = hits(routes, expert, n - 1, k);
        let c = hits_in(routes[n - 1]@, expert, (n - 1) as usize, k);
        let b = hits(routes, expert, n, k);
        lemma_hits_in(routes[n - 1]@, expert, (n - 1) as usize, k);
        lemma_joined(a, c);
    }
}

/// What two lists without common members hold together.
proof fn lemma_joined(a: Seq<(usize, usize)>, c: Seq<(usize, usize)>)
    requires
        a.no_duplicates(),
        c.no_duplicates(),
        forall|x: (usize, usize)| !(#[trigger] a.contains(x) && c.contains(x)),
    ensures
        (a + c).no_duplicates(),
        forall|x: (usize, usize)| #[trigger] (a + c).contains(x) <==> a.contains(x) || c.contains(x),
{
    let b = a + c;
    assert forall|x: (usize, usize)| #[trigger] b.contains(x) <==> a.contains(x) || c.contains(x) by {
        if b.contains(x) {
            let i = choose|i: int| 0 <= i < b.len() && b[i] == x;
            if i < a.len() {
                assert(a[i] == x);
            } else {
                assert(c[i - a.len()] == x);
            }
        }
        if a.contains(x) {
            let i = choose|i: int| 0 <= i < a.len() && a[i] == x;
            assert(b[i] == x);
        }
        if c.contains(x) {
            let i = choose|i: int| 0 <= i < c.len() && c[i] == x;
            assert(b[a.len() + i] == x);
        }
    }
    assert forall|i: int, j: int| 0 <= i < b.len() && 0 <= j < b.len() && i != j implies b[i] != b[j] by {
        if i < a.len() && j >= a.len() {
            assert(a.contains(a[i]) && c.contains(c[j - a.len()]));
        }
        if j < a.len() && i >= a.len() {
            assert(a.contains(a[j]) && c.contains(c[i - a.len()]));
        }
    }
}

/// Grouping loses nothing and doubles nothing: where no expert is listed twice,
/// the grouped rows are, each once, the places at which a listed expert stands.
pub proof fn law_grouping_is_a_permutation(
    routes: Seq<Vec<usize>>,
    experts: Seq<usize>,
    n: int,
    k: int,
)
    requires
        0 <= n <= experts.len(),
        routes.len() <= usize::MAX,
        0 <= k <= usize::MAX,
        experts.no_duplicates(),
        forall|i: int| 0 <= i < routes.len() ==> (#[trigger] routes[i])@.len() >= k,
    ensures
        grouped(routes, experts, n, k).no_duplicates(),
        forall|x: (usize, usize)| #[trigger]
            grouped(routes, experts, n, k).contains(x) <==> x.0 < routes.len() && x.1 < k
                && experts.take(n).contains(routes[x.0 as int]@[x.1 as int]),
    decreases n,
{
    let b = grouped(routes, experts, n, k);
    if n > 0 {
        law_grouping_is_a_permutation(routes, experts, n - 1, k);
        let e = experts[n - 1];
        let a = grouped(routes, experts, n - 1, k);
        let c = hits(routes, e, routes.len() as int, k);
        lemma_hits(routes, e, routes.len() as int, k);
        let few = experts.take(n - 1);
        let more = experts.take(n);
        assert forall|y: usize| #[trigger] more.contains(y) <==> few.contains(y) || y == e by {
            if more.contains(y) {
                let i = choose|i: int| 0 <= i < more.len() && more[i] == y;
                if i < n - 1 {
                    assert(few[i] == y);
                }
            }
            if few.contains(y) {
                let i = choose|i: int| 0 <= i < few.len() && few[i] == y;
                assert(more[i] == y);
            }
            if y == e {
                assert(more[n - 1] == y);
            }
        }
        assert(!few.contains(e)) by {
            if few.contains(e) {
                let i = choose|i: int| 0 <= i < few.len() && few[i] == e;
                assert(experts[i] == e);
            }
        }
        lemma_joined(a, c);
    }
}

/// Every row of a chunk finds its expert among those listed.
pub proof fn law_every_expert_is_listed(routes: Seq<Vec<usize>>, k: int, row: int, rank: int)
    requires
        0 <= row < routes.len(),
        0 <= rank < k,
        forall|i: int| 0 <= i < routes.len() ==> (#[trigger] routes[i])@.len() >= k,
        routed(routes, routes.len() as int, k).len() < usize::MAX,
    ensures
        firsts(routed(routes, routes.len() as int, k), usize::MAX as nat).no_duplicates(),
        firsts(routed(routes, routes.len() as int, k), usize::MAX as nat).contains(
            routes[row]@[rank],
        ),
{
    let ids = routed(routes, routes.len() as int, k);
    lemma_firsts(ids, usize::MAX as nat);
    lemma_routed(routes, routes.len() as int, k, row, rank);
}

proof fn lemma_routed(routes: Seq<Vec<usize>>, n: int, k: int, row: int, rank: int)
    requires
        0 <= row < n <= routes.len(),
        0 <= rank < k,
        forall|i: int| 0 <= i < routes.len() ==> (#[trigger] routes[i])@.len() >= k,
    ensures
        routed(routes, n, k).contains(routes[row]@[rank]),
    decreases n,
{
    let r = routed(routes, n, k);
    let a = routed(routes, n - 1, k);
    let e = routes[row]@[rank];
    if row == n - 1 {
        assert(r[a.len() + rank] == e);
    } else {
        lemma_routed(routes, n - 1, k, row, rank);
        let i = choose|i: int| 0 <= i < a.len() && a[i] == e;
        assert(r[i] == e);
    }
}

/// The inputs of the grouped rows, one behind the other.
pub fn gather_rows<T: Copy>(inputs: &Vec<Vec<T>>, scatter: &Vec<(usize, usize)>, width: usize) -> (r:
    Vec<T>)
    requires
        forall|i: int| 0 <= i < inputs@.len() ==> (#[trigger] inputs@[i])@.len() == width,
        forall|g: int| 0 <= g < scatter@.len() ==> (#[trigger] scatter@[g]).0 < inputs@.len(),
    ensures
        r@.len() == scatter@.len() * width,
        forall|g: int, d: int|
            0 <= g < scatter@.len() && 0 <= d < width ==> #[trigger] r@[g * width + d]
                == inputs@[scatter@[g].0 as int]@[d],
{
    let mut r: Vec<T> = Vec::new();
    let mut g: usize = 0;
    assert(0 * width == 0);
    while g < scatter.len()
        invariant
            forall|i: int| 0 <= i < inputs@.len() ==> (#[trigger] inputs@[i])@.len() == width,
            forall|g: int| 0 <= g < scatter@.len() ==> (#[trigger] scatter@[g]).0 < inputs@.len(),
            g <= scatter.len(),
            r@.len() == g * width,
            forall|h: int, d: int|
                0 <= h < g && 0 <= d < width ==> #[trigger] r@[h * width + d]
                    == inputs@[scatter@[h].0 as int]@[d],
        decreases scatter.len() - g,
    {
        let row: usize = scatter[g].0;
        let ghost before = r@;
        let mut d: usize = 0;
        while d < width
            invariant
                g < scatter.len(),
                row == scatter@[g as int].0,
                row < inputs@.len(),
                inputs@[row as int]@.len() == width,
                d <= width,
                before.len() == g * width,
                r@.len() == before.len() + d,
                forall|k: int| 0 <= k < before.len() ==> #[trigger] r@[k] == before[k],
                forall|k: int|
                    0 <= k < d ==> #[trigger] r@[before.len() + k] == inputs@[row as int]@[k],
            decreases width - d,
        {
            r.push(inputs[row][d]);
            d = d + 1;
        }
        proof {
            assert(g * width + width == (g + 1) * width) by (nonlinear_arith);
            assert forall|h: int, d: int| 0 <= h < g + 1 && 0 <= d < width implies #[trigger] r@[h
                * width + d] == inputs@[scatter@[h].0 as int]@[d] by {
                if h < g {
                    lemma_cell(g as nat, width as nat, h, d);
                    assert(before[h * width + d] == inputs@[scatter@[h].0 as int]@[d]);
                } else {
                    assert(r@[before.len() + d] == inputs@[row as int]@[d]);
                }
            }
        }
        g = g + 1;
    }
    r
}

/// Puts the outputs of the grouped rows back where they belong: by row, by rank,
/// and zero where no grouped row belongs.
pub fn place_rows<T: Copy>(
    outputs: &Vec<T>,
    scatter: &Vec<(usize, usize)>,
    rows: usize,
    k: usize,
    width: usize,
    zero: T,
) -> (r: Vec<T>)
    requires
        outputs@.len() == scatter@.len() * width,
        rows * k * width <= usize::MAX,
        rows * k <= usize::MAX,
        scatter@.no_duplicates(),
        forall|g: int|
            0 <= g < scatter@.len() ==> (#[trigger] scatter@[g]).0 < rows && scatter@[g].1 < k,
    ensures
        r@.len() == rows * k * width,
        forall|g: int, d: int|
            0 <= g < scatter@.len() && 0 <= d < width ==> r@[(scatter@[g].0 * k + scatter@[g].1)
                * width + d] == #[trigger] outputs@[g * width + d],
        forall|row: int, rank: int, d: int|
            0 <= row < rows && 0 <= rank < k && 0 <= d < width && !scatter@.contains(
                (row as usize, rank as usize),
            ) ==> #[trigger] r@[(row * k + rank) * width + d] == zero,
{
    let total: usize = rows * k * width;
    let mut r: Vec<T> = Vec::new();
    while r.len() < total
        invariant
            r@.len() <= total,
            forall|i: int| 0 <= i < r@.len() ==> #[trigger] r@[i] == zero,
        decreases total - r.len(),
    {
        r.push(zero);
    }
    proof {
        assert forall|row: int, rank: int, d: int|
            0 <= row < rows && 0 <= rank < k && 0 <= d < width implies #[trigger] r@[(row * k + rank)
            * width + d] == zero by {
            lemma_place(rows as nat, k as nat, width as nat, row, rank, d);
        }
    }
    let mut g: usize = 0;
    while g < scatter.len()
        invariant
            total == rows * k * width,
            rows * k <= usize::MAX,
            outputs@.len() == scatter@.len() * width,
            scatter@.no_duplicates(),
            forall|g: int|
                0 <= g < scatter@.len() ==> (#[trigger] scatter@[g]).0 < rows && scatter@[g].1 < k,
            g <= scatter.len(),
            r@.len() == total,
            forall|h: int, d: int|
                0 <= h < g && 0 <= d < width ==> r@[(scatter@[h].0 * k + scatter@[h].1) * width + d]
                    == #[trigger] outputs@[h * width + d],
            forall|row: int, rank: int, d: int|
                0 <= row < rows && 0 <= rank < k && 0 <= d < width && !scatter@.contains(
                    (row as usize, rank as usize),
                ) ==> #[trigger] r@[(row * k + rank) * width + d] == zero,
        decreases scatter.len() - g,
    {
        let (row, rank) = scatter[g];
        let ghost before = r@;
        assert(scatter@[g as int].0 < rows);
        proof {
            lemma_cell(rows as nat, k as nat, row as int, rank as int);
        }
        let cell: usize = row * k + rank;
        let mut d: usize = 0;
        while d < width
            invariant
                total == rows * k * width,
                rows * k <= usize::MAX,
                outputs@.len() == scatter@.len() * width,
                g < scatter.len(),
                cell < rows * k,
                d <= width,
                r@.len() == total,
                before.len() == total,
                forall|i: int|
                    0 <= i < total && !(cell * width <= i < cell * width + d) ==> #[trigger] r@[i]
                        == before[i],
                forall|e: int|
                    0 <= e < d ==> r@[cell * width + e] == #[trigger] outputs@[g * width + e],
            decreases width - d,
        {
            proof {
                lemma_cell((rows * k) as nat, width as nat, cell as int, d as int);
                lemma_cell(scatter@.len(), width as nat, g as int, d as int);
                assert(outputs.len() == outputs@.len());
            }
            let v: T = outputs[g * width + d];
            r.set(cell * width + d, v);
            d = d + 1;
        }
        proof {
            assert forall|h: int, d: int| 0 <= h < g + 1 && 0 <= d < width implies r@[(scatter@[h].0
                * k + scatter@[h].1) * width + d] == #[trigger] outputs@[h * width + d] by {
                if h < g {
                    assert(scatter@[h] != scatter@[g as int]);
                    lemma_apart(
                        rows as nat,
                        k as nat,
                        width as nat,
                        scatter@[h].0 as int,
                        scatter@[h].1 as int,
                        d,
                        row as int,
                        rank as int,
                    );
                }
            }
            assert forall|a: int, b: int, d: int|
                0 <= a < rows && 0 <= b < k && 0 <= d < width && !scatter@.contains(
                    (a as usize, b as usize),
                ) implies #[trigger] r@[(a * k + b) * width + d] == zero by {
                assert(scatter@.contains(scatter@[g as int]));
                lemma_apart(
                    rows as nat,
                    k as nat,
                    width as nat,
                    a,
                    b,
                    d,
                    row as int,
                    rank as int,
                );
                assert(before[(a * k + b) * width + d] == zero);
            }
        }
        g = g + 1;
    }
    r
}

/// A place lies within the outputs.
proof fn lemma_place(rows: nat, k: nat, width: nat, row: int, rank: int, d: int)
    requires
        0 <= row < rows,
        0 <= rank < k,
        0 <= d < width,
    ensures
        0 <= (row * k + rank) * width + d < rows * k * width,
{
    lemma_cell(rows, k, row, rank);
    lemma_cell(rows * k, width, row * k + rank, d);
}

/// The places of different rows or ranks do not meet.
proof fn lemma_apart(
    rows: nat,
    k: nat,
    width: nat,
    a: int,
    b: int,
    d: int,
    row: int,
    rank: int,
)
    requires
        0 <= a < rows,
        0 <= b < k,
        0 <= d < width,
        0 <= row < rows,
        0 <= rank < k,
        a != row || b != rank,
    ensures
        0 <= (a * k + b) * width + d < rows * k * width,
        !((row * k + rank) * width <= (a * k + b) * width + d < (row * k + rank) * width + width),
{
    lemma_place(rows, k, width, a, b, d);
    lemma_cell(rows, k, a, b);
    lemma_cell(rows, k, row, rank);
    let (x, y) = (a * k + b, row * k + rank);
    assert(x != y);
    if y * width <= x * width + d < y * width + width {
        assert(x == y) by (nonlinear_arith)
            requires
                y * width <= x * width + d < y * width + width,
                0 <= d < width,
        ;
    }
}

/// Whether the experts of a chunk are run in one go: where that is asked for, the
/// device can run them, the model is a package, and the cache holds them all.
pub fn batches_experts(
    settings: &Settings,
    metal_direct: bool,
    available: bool,
    package: bool,
    experts: usize,
    cap: usize,
) -> (r: bool)
    ensures
        r == (switch_on(settings.value("QWEN_PREFILL_MOE_BATCH"@), false) && metal_direct
            && available && package && experts <= cap),
{
    settings.on("QWEN_PREFILL_MOE_BATCH", false) && metal_direct && available && package && experts
        <= cap
}

/// What is done for a row of a chunk in a layer.
#[derive(Clone, Copy, Debug, PartialEq, Eq, Structural)]
pub enum RowPart {
    /// Tell the memory the token of the row.
    Token,
    /// Add what the memory has of the last tokens.
    Memory,
    /// Mix the streams for attention.
    Mix,
    /// Attention.
    Attend,
    /// Add what attention gave to every stream, weighed.
    InjectAttention,
    /// Mix the streams for the experts.
    ExpertMix,
    /// Pick the experts of the row.
    Route,
    /// The experts.
    Experts,
    /// Add what the experts gave to every stream, weighed.
    InjectExperts,
}

/// The phases of a chunk in a layer: all rows go through one before any goes on to the next.
#[derive(Clone, Copy, Debug, PartialEq, Eq, Structural)]
pub enum Phase {
    Open,
    Attend,
    Close,
    Route,
    Experts,
}

/// What is done for a row in a phase. `memory` is whether the layer is the one with the memory.
pub open spec fn row_parts(phase: Phase, memory: bool) -> Seq<RowPart> {
    match phase {
        Phase::Open => if memory {
            seq![RowPart::Token, RowPart::Memory, RowPart::Mix]
        } else {
            seq![RowPart::Mix]
        },
        Phase::Attend => seq![RowPart::Attend],
        Phase::Close => seq![RowPart::InjectAttention, RowPart::ExpertMix],
        Phase::Route => seq![RowPart::Route],
        Phase::Experts => seq![RowPart::Experts, RowPart::InjectExperts],
    }
}

/// The parts of a phase, as those of a row.
pub open spec fn of_row(phase: Phase, memory: bool, row: int) -> Seq<(RowPart, usize)> {
    row_parts(phase, memory).map_values(|p: RowPart| (p, row as usize))
}

/// What is done in a phase, for the first `n` rows.
pub open spec fn phase_order(phase: Phase, memory: bool, n: nat) -> Seq<(RowPart, usize)>
    decreases n,
{
    if n == 0 {
        Seq::empty()
    } else {
        phase_order(phase, memory, (n - 1) as nat) + of_row(phase, memory, n - 1)
    }
}

/// What is done for a chunk of `n` rows in a layer, in order.
pub open spec fn chunk_order(n: nat, memory: bool) -> Seq<(RowPart, usize)> {
    phase_order(Phase::Open, memory, n) + phase_order(Phase::Attend, memory, n) + phase_order(
        Phase::Close,
        memory,
        n,
    ) + phase_order(Phase::Route, memory, n) + phase_order(Phase::Experts, memory, n)
}

/// Appends what is done in a phase.
fn push_phase(out: &mut Vec<(RowPart, usize)>, phase: Phase, memory: bool, n: usize)
    ensures
        final(out)@ == old(out)@ + phase_order(phase, memory, n as nat),
{
    let ghost start = out@;
    let mut row: usize = 0;
    assert(out@ =~= start + phase_order(phase, memory, 0));
    while row < n
        invariant
            row <= n,
            out@ == start + phase_order(phase, memory, row as nat),
        decreases n - row,
    {
        let ghost before = out@;
        match phase {
            Phase::Open => {
                if memory {
                    out.push((RowPart::Token, row));
                    out.push((RowPart::Memory, row));
                }
                out.push((RowPart::Mix, row));
            },
            Phase::Attend => {
                out.push((RowPart::Attend, row));
            },
            Phase::Close => {
                out.push((RowPart::InjectAttention, row));
                out.push((RowPart::ExpertMix, row));
            },
            Phase::Route => {
                out.push((RowPart::Route, row));
            },
            Phase::Experts => {
                out.push((RowPart::Experts, row));
                out.push((RowPart::InjectExperts, row));
            },
        }
        assert(out@ =~= before + of_row(phase, memory, row as int));
        assert(out@ =~= start + phase_order(phase, memory, (row + 1) as nat));
        row = row + 1;
    }
}

/// What is done for a chunk of rows in a layer, in order. Attention and experts come for all
/// rows one after the other, so that a device may take them in one go.
pub fn chunk_parts(rows: usize, memory: bool) -> (r: Vec<(RowPart, usize)>)
    ensures
        r@ == chunk_order(rows as nat, memory),
{
    let mut r: Vec<(RowPart, usize)> = Vec::new();
    push_phase(&mut r, Phase::Open, memory, rows);
    push_phase(&mut r, Phase::Attend, memory, rows);
    push_phase(&mut r, Phase::Close, memory, rows);
    push_phase(&mut r, Phase::Route, memory, rows);
    push_phase(&mut r, Phase::Experts, memory, rows);
    assert(r@ =~= chunk_order(rows as nat, memory));
    r
}

/// Whether a part is one of a row.
pub open spec fn is_of(row: int) -> spec_fn((RowPart, usize)) -> bool {
    |x: (RowPart, usize)| x.1 == row
}

proof fn lemma_of_row(phase: Phase, memory: bool, row: int, other: int)
    requires
        0 <= row <= usize::MAX,
        0 <= other <= usize::MAX,
    ensures
        of_row(phase, memory, row).filter(is_of(other)) == (if row == other {
            of_row(phase, memory, row)
        } else {
            Seq::empty()
        }),
{
    let list = of_row(phase, memory, row);
    reveal(Seq::filter);
    reveal_with_fuel(Seq::filter, 4);
    assert(list.len() <= 3);
    if list.len() >= 1 {
        assert(list.drop_last().len() == list.len() - 1);
    }
    if row == other {
        assert(list.filter(is_of(other)) =~= list);
    } else {
        assert(list.filter(is_of(other)) =~= Seq::empty());
    }
}

proof fn lemma_phase_row(phase: Phase, memory: bool, n: nat, row: int)
    requires
        n <= usize::MAX,
        0 <= row <= usize::MAX,
    ensures
        phase_order(phase, memory, n).filter(is_of(row)) == (if row < n {
            of_row(phase, memory, row)
        } else {
            Seq::empty()
        }),
    decreases n,
{
    reveal(Seq::filter);
    if n > 0 {
        let before = phase_order(phase, memory, (n - 1) as nat);
        lemma_phase_row(phase, memory, (n - 1) as nat, row);
        lemma_of_row(phase, memory, n - 1, row);
        Seq::filter_distributes_over_add(before, of_row(phase, memory, n - 1), is_of(row));
        assert(phase_order(phase, memory, n).filter(is_of(row)) =~= (if row < n {
            of_row(phase, memory, row)
        } else {
            Seq::empty()
        }));
    }
}

/// Whatever else is done for the other rows, a row of a chunk goes through the parts of a
/// token in their order, each once.
pub proof fn law_a_row_goes_through_the_parts_of_a_token(n: nat, memory: bool, row: int)
    requires
        n <= usize::MAX,
        0 <= row < n,
    ensures
        chunk_order(n, memory).filter(is_of(row)) == of_row(Phase::Open, memory, row) + of_row(
            Phase::Attend,
            memory,
            row,
        ) + of_row(Phase::Close, memory, row) + of_row(Phase::Route, memory, row) + of_row(
            Phase::Experts,
            memory,
            row,
        ),
{
    let a = phase_order(Phase::Open, memory, n);
    let b = phase_order(Phase::Attend, memory, n);
    let c = phase_order(Phase::Close, memory, n);
    let d = phase_order(Phase::Route, memory, n);
    let e = phase_order(Phase::Experts, memory, n);
    lemma_phase_row(Phase::Open, memory, n, row);
    lemma_phase_row(Phase::Attend, memory, n, row);
    lemma_phase_row(Phase::Close, memory, n, row);
    lemma_phase_row(Phase::Route, memory, n, row);
    lemma_phase_row(Phase::Experts, memory, n, row);
    Seq::filter_distributes_over_add(a, b, is_of(row));
    Seq::filter_distributes_over_add(a + b, c, is_of(row));
    Seq::filter_distributes_over_add(a + b + c, d, is_of(row));
    Seq::filter_distributes_over_add(a + b + c + d, e, is_of(row));
}

/// Rows attend in the order of their positions, so that each finds the keys and values of
/// those before it.
pub proof fn law_rows_attend_in_order(n: nat, memory: bool, row: int)
    requires
        n <= usize::MAX,
        0 <= row < n,
    ensures
        ({
            let at = phase_order(Phase::Open, memory, n).len() + row;
            chunk_order(n, memory)[at] == (RowPart::Attend, row as usize)
        }),
{
    lemma_attend_phase(memory, n);
    let a = phase_order(Phase::Open, memory, n);
    let b = phase_order(Phase::Attend, memory, n);
    assert((a + b)[a.len() + row] == b[row]);
}

proof fn lemma_attend_phase(memory: bool, n: nat)
    requires
        n <= usize::MAX,
    ensures
        phase_order(Phase::Attend, memory, n).len() == n,
        forall|row: int|
            0 <= row < n ==> #[trigger] phase_order(Phase::Attend, memory, n)[row] == (
                RowPart::Attend,
                row as usize,
            ),
    decreases n,
{
    if n > 0 {
        lemma_attend_phase(memory, (n - 1) as nat);
    }
}

/// What is to be done next for the experts of a chunk.
#[derive(Clone, Copy, Debug, PartialEq, Eq, Structural)]
pub enum BatchStage {
    /// Bring all experts of the chunk in.
    Preload,
    /// Take hold of an expert.
    Bind(usize),
    /// Run all rows on the device.
    Run,
    /// Weigh what came back, row by row.
    Weigh,
    /// Run the experts of each row by themselves.
    RowWise,
    Done,
}

/// What follows a stage, for a chunk with `n` different experts.
pub open spec fn batch_after(n: int, stage: BatchStage, ok: bool) -> BatchStage {
    match stage {
        BatchStage::Preload => if !ok {
            BatchStage::RowWise
        } else if n == 0 {
            BatchStage::Run
        } else {
            BatchStage::Bind(0)
        },
        BatchStage::Bind(i) => if !ok {
            BatchStage::RowWise
        } else if i + 1 < n {
            BatchStage::Bind((i + 1) as usize)
        } else {
            BatchStage::Run
        },
        BatchStage::Run => if ok {
            BatchStage::Weigh
        } else {
            BatchStage::RowWise
        },
        BatchStage::Weigh => BatchStage::Done,
        BatchStage::RowWise => BatchStage::Done,
        BatchStage::Done => BatchStage::Done,
    }
}

/// How far the experts of a chunk are from their end.
pub open spec fn batch_distance(n: int, stage: BatchStage) -> int {
    match stage {
        BatchStage::Preload => n + 5,
        BatchStage::Bind(i) => if i < n {
            n - i + 3
        } else {
            3
        },
        BatchStage::Run => 2,
        BatchStage::Weigh => 1,
        BatchStage::RowWise => 1,
        BatchStage::Done => 0,
    }
}

/// Begins with the experts of a chunk, which run in one go or row by row.
pub fn batch_start(together: bool) -> (r: BatchStage)
    ensures
        r == (if together {
            BatchStage::Preload
        } else {
            BatchStage::RowWise
        }),
{
    if together {
        BatchStage::Preload
    } else {
        BatchStage::RowWise
    }
}

/// Goes on with the experts of a chunk.
pub fn batch_step(n: usize, stage: BatchStage, ok: bool) -> (r: BatchStage)
    ensures
        r == batch_after(n as int, stage, ok),
{
    match stage {
        BatchStage::Preload => if !ok {
            BatchStage::RowWise
        } else if n == 0 {
            BatchStage::Run
        } else {
            BatchStage::Bind(0)
        },
        BatchStage::Bind(i) => if !ok {
            BatchStage::RowWise
        } else if i < n && i + 1 < n {
            BatchStage::Bind(i + 1)
        } else {
            BatchStage::Run
        },
        BatchStage::Run => if ok {
            BatchStage::Weigh
        } else {
            BatchStage::RowWise
        },
        BatchStage::Weigh => BatchStage::Done,
        BatchStage::RowWise => BatchStage::Done,
        BatchStage::Done => BatchStage::Done,
    }
}

/// The experts of every chunk come to an end, and each row is computed either with the others
/// or by itself.
pub proof fn law_every_row_is_computed_once(n: int, stage: BatchStage, ok: bool)
    requires
        0 <= n <= usize::MAX,
        stage != BatchStage::Done,
    ensures
        0 <= batch_distance(n, batch_after(n, stage, ok)) < batch_distance(n, stage),
        batch_after(n, stage, ok) == BatchStage::Done <==> stage is Weigh || stage is RowWise,
        batch_after(n, stage, ok) is Weigh <==> stage is Run && ok,
{
}

/// Fed token by token, a prompt is fed in order and without a gap, and scores are asked for behind its
/// last token alone, if at all.
pub proof fn law_tokens_are_fed_in_order(tokens: Seq<u32>, start: int, last: bool, i: int)
    requires
        0 <= i < tokens.len(),
        0 <= start,
        start + tokens.len() <= usize::MAX,
    ensures
        step_of(tokens, start, last, i).token == tokens[i],
        step_of(tokens, start, last, i).pos == start + i,
        step_of(tokens, start, last, i).logits <==> last && i + 1 == tokens.len(),
{
}

/// A row of a chunk goes through what a token goes through in a layer of a model of several streams:
/// but for telling the memory its token and for picking its experts, its parts are those of the layer.
pub proof fn law_a_row_has_the_parts_of_a_layer(streams: int, gdn: bool, qsa: bool, memory: bool)
    requires
        streams > 0,
    ensures
        ({
            let row = row_parts(Phase::Open, memory) + row_parts(Phase::Attend, memory) + row_parts(
                Phase::Close,
                memory,
            ) + row_parts(Phase::Route, memory) + row_parts(Phase::Experts, memory);
            let layer = crate::runtime::parts_of(streams, gdn, qsa, memory);
            let n = if memory {
                2int
            } else {
                0
            };
            &&& row.len() == n + 7
            &&& memory ==> row[0] is Token && row[1] is Memory && layer[0] is Memory
            &&& row[n] is Mix && layer[layer.len() - 6] is Mix
            &&& row[n + 1] is Attend
            &&& row[n + 2] is InjectAttention && layer[layer.len() - 4] is InjectAttention
            &&& row[n + 3] is ExpertMix && layer[layer.len() - 3] is ExpertMix
            &&& row[n + 4] is Route
            &&& row[n + 5] is Experts && layer[layer.len() - 2] is Experts
            &&& row[n + 6] is InjectExperts && layer[layer.len() - 1] is InjectExperts
        }),
{
}

/// The rows of an expert are those that it is in the route of, with the rank it has there, in order.
pub proof fn law_the_rows_of_an_expert_are_its_own(
    routes: Seq<Vec<usize>>,
    expert: usize,
    n: int,
    k: int,
    g: int,
)
    requires
        0 <= n <= routes.len(),
        routes.len() <= usize::MAX,
        0 <= k <= usize::MAX,
        forall|i: int| 0 <= i < routes.len() ==> (#[trigger] routes[i])@.len() >= k,
        0 <= g < hits(routes, expert, n, k).len(),
    ensures
        ({
            let (row, rank) = hits(routes, expert, n, k)[g];
            &&& row < n && rank < k
            &&& routes[row as int]@[rank as int] == expert
            &&& g > 0 ==> {
                let before = hits(routes, expert, n, k)[g - 1];
                before.0 < row || (before.0 == row && before.1 < rank)
            }
        }),
    decreases n,
{
    assert(n > 0);
    let short = hits(routes, expert, n - 1, k);
    let more = hits_in(routes[n - 1]@, expert, (n - 1) as usize, k);
    assert(routes[n - 1]@.len() >= k);
    let (row, rank) = hits(routes, expert, n, k)[g];
    if g < short.len() {
        law_the_rows_of_an_expert_are_its_own(routes, expert, n - 1, k, g);
        assert(hits(routes, expert, n, k)[g] == short[g]);
        if g > 0 {
            assert(hits(routes, expert, n, k)[g - 1] == short[g - 1]);
        }
    } else {
        let all = hits(routes, expert, n, k);
        assert(all == short + more);
        lemma_hits_of_a_row(routes[n - 1]@, expert, (n - 1) as usize, k, g - short.len());
        assert(all[g] == more[g - short.len()]);
        assert(row == n - 1 && rank < k);
        assert(routes[row as int]@[rank as int] == expert);
        if g == short.len() && g > 0 {
            law_the_rows_of_an_expert_are_its_own(routes, expert, n - 1, k, g - 1);
            assert(all[g - 1] == short[g - 1]);
        } else if g > 0 {
            lemma_hits_of_a_row(routes[n - 1]@, expert, (n - 1) as usize, k, g - 1 - short.len());
            assert(all[g - 1] == more[g - 1 - short.len()]);
        }
    }
}

proof fn lemma_hits_of_a_row(route: Seq<usize>, expert: usize, row: usize, n: int, g: int)
    requires
        0 <= n <= route.len(),
        n <= usize::MAX,
        0 <= g < hits_in(route, expert, row, n).len(),
    ensures
        hits_in(route, expert, row, n)[g].0 == row,
        hits_in(route, expert, row, n)[g].1 < n,
        route[hits_in(route, expert, row, n)[g].1 as int] == expert,
        g > 0 ==> hits_in(route, expert, row, n)[g - 1].1 < hits_in(route, expert, row, n)[g].1,
    decreases n,
{
    let short = hits_in(route, expert, row, n - 1);
    if g < short.len() {
        lemma_hits_of_a_row(route, expert, row, n - 1, g);
    } else if g > 0 {
        lemma_hits_of_a_row(route, expert, row, n - 1, g - 1);
    }
}

/// The experts of a chunk are taken hold of in turn, none passed over, and then run together; whatever
/// fails on the way leaves every row to be run by itself.
pub proof fn law_experts_of_a_chunk_are_bound_in_turn(n: int, i: usize, ok: bool)
    requires
        0 <= i < n <= usize::MAX,
    ensures
        batch_after(n, BatchStage::Preload, true) == BatchStage::Bind(0),
        batch_after(n, BatchStage::Bind(i), true) == (if i + 1 == n {
            BatchStage::Run
        } else {
            BatchStage::Bind((i + 1) as usize)
        }),
        batch_after(n, BatchStage::Preload, false) is RowWise,
        batch_after(n, BatchStage::Bind(i), false) is RowWise,
        batch_after(n, BatchStage::Run, false) is RowWise,
{
}

} // verus!
