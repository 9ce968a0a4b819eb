//! What a model's state is after a token, whatever its layers compute.
//!
//! What a layer computes is floating point and is not spoken of here. The laws hold for every way of
//! computing it: they say that the order in which a chunk goes through the layers, and the places at
//! which a token stops and goes on, change nothing of what is left behind.

use vstd::prelude::*;

use crate::prefill::{chunk_order, of_row, phase_order, row_parts, Phase, RowPart};
use crate::sched::{resumed, stopped, Scheduler, TokenPause};

verus! {

/// What each layer computes: of a row and what its memory keeps, of a row and what its attention
/// keeps, and of a row alone.
#[verifier::reject_recursive_types(M)]
#[verifier::reject_recursive_types(A)]
#[verifier::reject_recursive_types(D)]
pub struct LayerWork<M, A, D> {
    pub memory: spec_fn(int, RowPart, M, D) -> (M, D),
    pub attend: spec_fn(int, A, D) -> (A, D),
    pub own: spec_fn(int, RowPart, D) -> D,
}

/// What the memory and the attention of each layer keep, and the rows of a chunk.
pub struct LayerWorld<M, A, D> {
    pub memory: Seq<M>,
    pub attention: Seq<A>,
    pub rows: Seq<D>,
}

impl<M, A, D> LayerWorld<M, A, D> {
    /// Whether the layer and the row of a part are there.
    pub open spec fn holds(self, deed: Deed) -> bool {
        &&& 0 <= deed.layer < self.memory.len()
        &&& deed.layer < self.attention.len()
        &&& deed.row < self.rows.len()
    }
}

/// A part of a row in a layer.
pub struct Deed {
    pub layer: int,
    pub part: RowPart,
    pub row: usize,
}

/// The parts of rows, as those of a layer.
pub open spec fn in_layer(acts: Seq<(RowPart, usize)>, layer: int) -> Seq<Deed> {
    acts.map_values(|a: (RowPart, usize)| Deed { layer, part: a.0, row: a.1 })
}


/// Whether a part reads or changes what the memory keeps.
pub open spec fn tells_memory(p: RowPart) -> bool {
    p is Token || p is Memory
}

/// One part of a row done; a layer or a row that is not there changes nothing.
pub open spec fn perform<M, A, D>(
    k: LayerWork<M, A, D>,
    w: LayerWorld<M, A, D>,
    deed: Deed,
) -> LayerWorld<M, A, D> {
    let (l, r) = (deed.layer, deed.row as int);
    if !w.holds(deed) {
        w
    } else if tells_memory(deed.part) {
        let x = (k.memory)(l, deed.part, w.memory[l], w.rows[r]);
        LayerWorld { memory: w.memory.update(l, x.0), rows: w.rows.update(r, x.1), ..w }
    } else if deed.part is Attend {
        let x = (k.attend)(l, w.attention[l], w.rows[r]);
        LayerWorld { attention: w.attention.update(l, x.0), rows: w.rows.update(r, x.1), ..w }
    } else {
        LayerWorld { rows: w.rows.update(r, (k.own)(l, deed.part, w.rows[r])), ..w }
    }
}

/// Parts of rows done one after the other.
pub open spec fn run<M, A, D>(
    k: LayerWork<M, A, D>,
    w: LayerWorld<M, A, D>,
    deeds: Seq<Deed>,
) -> LayerWorld<M, A, D>
    decreases deeds.len(),
{
    if deeds.len() == 0 {
        w
    } else {
        perform(k, run(k, w, deeds.drop_last()), deeds.last())
    }
}

/// All that is done for one row in a layer.
pub open spec fn whole_row(memory: bool, row: int) -> Seq<(RowPart, usize)> {
    of_row(Phase::Open, memory, row) + of_row(Phase::Attend, memory, row) + of_row(
        Phase::Close,
        memory,
        row,
    ) + of_row(Phase::Route, memory, row) + of_row(Phase::Experts, memory, row)
}

/// What is done for a chunk of `n` rows in the first `layers` layers: all rows leave a layer before
/// any enters the next. `ple` is the layer with the memory, which is told the tokens there.
pub open spec fn chunk_deeds(n: nat, ple: int, layers: nat) -> Seq<Deed>
    decreases layers,
{
    if layers == 0 {
        Seq::empty()
    } else {
        chunk_deeds(n, ple, (layers - 1) as nat) + in_layer(
            chunk_order(n, layers - 1 == ple),
            layers - 1,
        )
    }
}

/// What is done for one row in the first `layers` layers.
pub open spec fn row_deeds(row: int, ple: int, layers: nat) -> Seq<Deed>
    decreases layers,
{
    if layers == 0 {
        Seq::empty()
    } else {
        row_deeds(row, ple, (layers - 1) as nat) + in_layer(
            whole_row(layers - 1 == ple, row),
            layers - 1,
        )
    }
}

/// What is done for `n` rows in the first `layers` layers where each row is through all of them
/// before the next begins.
pub open spec fn token_deeds(n: nat, ple: int, layers: nat) -> Seq<Deed>
    decreases n,
{
    if n == 0 {
        Seq::empty()
    } else {
        token_deeds((n - 1) as nat, ple, layers) + row_deeds(n - 1, ple, layers)
    }
}

/// Whether two parts have nothing in common: they are of different rows, and do not both tell the
/// memory or both attend in one layer.
pub open spec fn apart(x: Deed, y: Deed) -> bool {
    &&& x.row != y.row
    &&& x.layer == y.layer ==> !(tells_memory(x.part) && tells_memory(y.part)) && !(x.part is Attend
        && y.part is Attend)
}

/// Whether no part of one sequence has anything in common with one of the other.
pub open spec fn all_apart(xs: Seq<Deed>, ys: Seq<Deed>) -> bool {
    forall|i: int, j: int|
        0 <= i < xs.len() && 0 <= j < ys.len() ==> apart(#[trigger] xs[i], #[trigger] ys[j])
}

proof fn lemma_run_append<M, A, D>(
    k: LayerWork<M, A, D>,
    w: LayerWorld<M, A, D>,
    a: Seq<Deed>,
    b: Seq<Deed>,
)
    ensures
        run(k, w, a + b) == run(k, run(k, w, a), b),
    decreases b.len(),
{
    if b.len() == 0 {
        assert(a + b =~= a);
    } else {
        lemma_run_append(k, w, a, b.drop_last());
        assert((a + b).drop_last() =~= a + b.drop_last());
        assert((a + b).last() == b.last());
    }
}

proof fn lemma_swap<M, A, D>(
    k: LayerWork<M, A, D>,
    w: LayerWorld<M, A, D>,
    x: Deed,
    y: Deed,
)
    requires
        apart(x, y),
    ensures
        perform(k, perform(k, w, x), y) == perform(k, perform(k, w, y), x),
{
    if w.holds(x) && w.holds(y) {
        let (i, j) = (x.row as int, y.row as int);
        let p = perform(k, w, x);
        let q = perform(k, w, y);
        assert(p.rows[j] == w.rows[j]);
        assert(q.rows[i] == w.rows[i]);
        assert(perform(k, p, y).rows =~= perform(k, q, x).rows);
        assert(perform(k, p, y).memory =~= perform(k, q, x).memory);
        assert(perform(k, p, y).attention =~= perform(k, q, x).attention);
    }
}

proof fn lemma_swap_one<M, A, D>(
    k: LayerWork<M, A, D>,
    w: LayerWorld<M, A, D>,
    x: Deed,
    ys: Seq<Deed>,
)
    requires
        forall|j: int| 0 <= j < ys.len() ==> apart(x, #[trigger] ys[j]),
    ensures
        run(k, perform(k, w, x), ys) == perform(k, run(k, w, ys), x),
    decreases ys.len(),
{
    if ys.len() > 0 {
        let short = ys.drop_last();
        assert forall|j: int| 0 <= j < short.len() implies apart(x, #[trigger] short[j]) by {
            assert(short[j] == ys[j]);
        }
        lemma_swap_one(k, w, x, short);
        assert(apart(x, ys[ys.len() - 1]));
        lemma_swap(k, run(k, w, short), x, ys.last());
    }
}

proof fn lemma_swap_blocks<M, A, D>(
    k: LayerWork<M, A, D>,
    w: LayerWorld<M, A, D>,
    xs: Seq<Deed>,
    ys: Seq<Deed>,
)
    requires
        all_apart(xs, ys),
    ensures
        run(k, run(k, w, xs), ys) == run(k, run(k, w, ys), xs),
    decreases xs.len(),
{
    if xs.len() > 0 {
        let short = xs.drop_last();
        let x = xs.last();
        assert forall|i: int, j: int| 0 <= i < short.len() && 0 <= j < ys.len() implies apart(
            #[trigger] short[i],
            #[trigger] ys[j],
        ) by {
            assert(short[i] == xs[i]);
        }
        lemma_swap_blocks(k, w, short, ys);
        assert forall|j: int| 0 <= j < ys.len() implies apart(x, #[trigger] ys[j]) by {
            assert(apart(xs[xs.len() - 1], ys[j]));
        }
        lemma_swap_one(k, run(k, w, short), x, ys);
    }
}

proof fn lemma_in_layer_append(a: Seq<(RowPart, usize)>, b: Seq<(RowPart, usize)>, layer: int)
    ensures
        in_layer(a + b, layer) == in_layer(a, layer) + in_layer(b, layer),
{
    assert(in_layer(a + b, layer) =~= in_layer(a, layer) + in_layer(b, layer));
}

proof fn lemma_phase_acts(phase: Phase, memory: bool, n: nat)
    requires
        n <= usize::MAX,
    ensures
        forall|j: int|
            0 <= j < phase_order(phase, memory, n).len() ==> {
                let y = #[trigger] phase_order(phase, memory, n)[j];
                y.1 < n && row_parts(phase, memory).contains(y.0)
            },
    decreases n,
{
    if n > 0 {
        let before = phase_order(phase, memory, (n - 1) as nat);
        let last = of_row(phase, memory, n - 1);
        lemma_phase_acts(phase, memory, (n - 1) as nat);
        assert forall|j: int| 0 <= j < phase_order(phase, memory, n).len() implies {
            let y = #[trigger] phase_order(phase, memory, n)[j];
            y.1 < n && row_parts(phase, memory).contains(y.0)
        } by {
            if j < before.len() {
                assert(phase_order(phase, memory, n)[j] == before[j]);
            } else {
                let i = j - before.len();
                assert(phase_order(phase, memory, n)[j] == last[i]);
                assert(last[i] == (row_parts(phase, memory)[i], (n - 1) as usize));
                assert(row_parts(phase, memory).contains(row_parts(phase, memory)[i]));
            }
        }
    }
}

proof fn lemma_part_of_phase(phase: Phase, memory: bool, p: RowPart)
    requires
        row_parts(phase, memory).contains(p),
    ensures
        tells_memory(p) ==> phase is Open,
        p is Attend ==> phase is Attend,
{
    let i = choose|i: int|
        0 <= i < row_parts(phase, memory).len() && row_parts(phase, memory)[i] == p;
    assert(row_parts(phase, memory)[i] == p);
}

/// The parts of a row in one phase can be done before or after another phase of the rows before it.
proof fn lemma_row_past_phase<M, A, D>(
    k: LayerWork<M, A, D>,
    w: LayerWorld<M, A, D>,
    own: Phase,
    other: Phase,
    memory: bool,
    n: nat,
    layer: int,
)
    requires
        own != other,
        n < usize::MAX,
    ensures
        ({
            let xs = in_layer(of_row(own, memory, n as int), layer);
            let ys = in_layer(phase_order(other, memory, n), layer);
            run(k, run(k, w, xs), ys) == run(k, run(k, w, ys), xs)
        }),
{
    let xs = in_layer(of_row(own, memory, n as int), layer);
    let ys = in_layer(phase_order(other, memory, n), layer);
    lemma_phase_acts(other, memory, n);
    assert forall|i: int, j: int| 0 <= i < xs.len() && 0 <= j < ys.len() implies apart(
        #[trigger] xs[i],
        #[trigger] ys[j],
    ) by {
        assert(xs[i].part == row_parts(own, memory)[i]);
        assert(row_parts(own, memory).contains(xs[i].part));
        let y = phase_order(other, memory, n)[j];
        assert(ys[j] == (Deed { layer, part: y.0, row: y.1 }));
        lemma_part_of_phase(own, memory, xs[i].part);
        lemma_part_of_phase(other, memory, ys[j].part);
    }
    lemma_swap_blocks(k, w, xs, ys);
}

proof fn lemma_five<M, A, D>(
    k: LayerWork<M, A, D>,
    w: LayerWorld<M, A, D>,
    layer: int,
    a: Seq<(RowPart, usize)>,
    b: Seq<(RowPart, usize)>,
    c: Seq<(RowPart, usize)>,
    d: Seq<(RowPart, usize)>,
    e: Seq<(RowPart, usize)>,
)
    ensures
        run(k, w, in_layer(a + b + c + d + e, layer)) == run(
            k,
            run(
                k,
                run(
                    k,
                    run(k, run(k, w, in_layer(a, layer)), in_layer(b, layer)),
                    in_layer(c, layer),
                ),
                in_layer(d, layer),
            ),
            in_layer(e, layer),
        ),
{
    lemma_in_layer_append(a + b + c + d, e, layer);
    lemma_in_layer_append(a + b + c, d, layer);
    lemma_in_layer_append(a + b, c, layer);
    lemma_in_layer_append(a, b, layer);
    let (p, q, r, s, t) = (
        in_layer(a, layer),
        in_layer(b, layer),
        in_layer(c, layer),
        in_layer(d, layer),
        in_layer(e, layer),
    );
    lemma_run_append(k, w, p + q + r + s, t);
    lemma_run_append(k, w, p + q + r, s);
    lemma_run_append(k, w, p + q, r);
    lemma_run_append(k, w, p, q);
}

/// The last row of a chunk can go through a layer after the others: whatever the parts of a layer
/// compute, all rows going through one phase before any goes on to the next gives the same as the
/// last row beginning when the others have left the layer.
pub proof fn law_the_last_row_can_wait<M, A, D>(
    k: LayerWork<M, A, D>,
    w: LayerWorld<M, A, D>,
    n: nat,
    memory: bool,
    layer: int,
)
    requires
        n < usize::MAX,
    ensures
        run(k, w, in_layer(chunk_order(n + 1, memory), layer)) == run(
            k,
            run(k, w, in_layer(chunk_order(n, memory), layer)),
            in_layer(whole_row(memory, n as int), layer),
        ),
{
    let (so, sa, sc, sr, se) = (
        phase_order(Phase::Open, memory, n),
        phase_order(Phase::Attend, memory, n),
        phase_order(Phase::Close, memory, n),
        phase_order(Phase::Route, memory, n),
        phase_order(Phase::Experts, memory, n),
    );
    let (to, ta, tc, tr, te) = (
        of_row(Phase::Open, memory, n as int),
        of_row(Phase::Attend, memory, n as int),
        of_row(Phase::Close, memory, n as int),
        of_row(Phase::Route, memory, n as int),
        of_row(Phase::Experts, memory, n as int),
    );
    let (o, a, c, r, e) = (
        in_layer(so, layer),
        in_layer(sa, layer),
        in_layer(sc, layer),
        in_layer(sr, layer),
        in_layer(se, layer),
    );
    let (o1, a1, c1, r1, e1) = (
        in_layer(to, layer),
        in_layer(ta, layer),
        in_layer(tc, layer),
        in_layer(tr, layer),
        in_layer(te, layer),
    );
    // The chunk: o o1 a a1 c c1 r r1 e e1.
    lemma_five(k, w, layer, so + to, sa + ta, sc + tc, sr + tr, se + te);
    lemma_in_layer_append(so, to, layer);
    lemma_in_layer_append(sa, ta, layer);
    lemma_in_layer_append(sc, tc, layer);
    lemma_in_layer_append(sr, tr, layer);
    lemma_in_layer_append(se, te, layer);
    lemma_run_append(k, w, o, o1);
    let w0 = run(k, w, o);
    // o1 past a.
    lemma_run_append(k, run(k, w0, o1), a, a1);
    lemma_row_past_phase(k, w0, Phase::Open, Phase::Attend, memory, n, layer);
    let w1 = run(k, w0, a);
    let x1 = run(k, run(k, w1, o1), a1);
    assert(run(k, run(k, w, o + o1), a + a1) == x1);
    // o1 a1 past c.
    lemma_run_append(k, x1, c, c1);
    lemma_row_past_phase(k, run(k, w1, o1), Phase::Attend, Phase::Close, memory, n, layer);
    lemma_row_past_phase(k, w1, Phase::Open, Phase::Close, memory, n, layer);
    let w2 = run(k, w1, c);
    let y2 = run(k, run(k, w2, o1), a1);
    let x2 = run(k, y2, c1);
    assert(run(k, x1, c + c1) == x2);
    // o1 a1 c1 past r.
    lemma_run_append(k, x2, r, r1);
    lemma_row_past_phase(k, y2, Phase::Close, Phase::Route, memory, n, layer);
    lemma_row_past_phase(k, run(k, w2, o1), Phase::Attend, Phase::Route, memory, n, layer);
    lemma_row_past_phase(k, w2, Phase::Open, Phase::Route, memory, n, layer);
    let w3 = run(k, w2, r);
    let y3 = run(k, run(k, w3, o1), a1);
    let z3 = run(k, y3, c1);
    let x3 = run(k, z3, r1);
    assert(run(k, x2, r + r1) == x3);
    // o1 a1 c1 r1 past e.
    lemma_run_append(k, x3, e, e1);
    lemma_row_past_phase(k, z3, Phase::Route, Phase::Experts, memory, n, layer);
    lemma_row_past_phase(k, y3, Phase::Close, Phase::Experts, memory, n, layer);
    lemma_row_past_phase(k, run(k, w3, o1), Phase::Attend, Phase::Experts, memory, n, layer);
    lemma_row_past_phase(k, w3, Phase::Open, Phase::Experts, memory, n, layer);
    let w4 = run(k, w3, e);
    // What the rows before have left, and the last row behind it.
    lemma_five(k, w, layer, so, sa, sc, sr, se);
    lemma_five(k, w4, layer, to, ta, tc, tr, te);
}

proof fn lemma_chunk_rows(n: nat, memory: bool, layer: int)
    requires
        n <= usize::MAX,
    ensures
        forall|j: int|
            0 <= j < in_layer(chunk_order(n, memory), layer).len() ==> {
                let y = #[trigger] in_layer(chunk_order(n, memory), layer)[j];
                y.row < n && y.layer == layer
            },
{
    lemma_phase_acts(Phase::Open, memory, n);
    lemma_phase_acts(Phase::Attend, memory, n);
    lemma_phase_acts(Phase::Close, memory, n);
    lemma_phase_acts(Phase::Route, memory, n);
    lemma_phase_acts(Phase::Experts, memory, n);
    let (o, a, c, r, e) = (
        phase_order(Phase::Open, memory, n),
        phase_order(Phase::Attend, memory, n),
        phase_order(Phase::Close, memory, n),
        phase_order(Phase::Route, memory, n),
        phase_order(Phase::Experts, memory, n),
    );
    let all = chunk_order(n, memory);
    assert forall|j: int| 0 <= j < in_layer(all, layer).len() implies {
        let y = #[trigger] in_layer(all, layer)[j];
        y.row < n && y.layer == layer
    } by {
        assert(all == o + a + c + r + e);
        let y = all[j];
        if j < o.len() {
            assert(y == o[j]);
        } else if j < o.len() + a.len() {
            assert(y == a[j - o.len()]);
        } else if j < o.len() + a.len() + c.len() {
            assert(y == c[j - o.len() - a.len()]);
        } else if j < o.len() + a.len() + c.len() + r.len() {
            assert(y == r[j - o.len() - a.len() - c.len()]);
        } else {
            assert(y == e[j - o.len() - a.len() - c.len() - r.len()]);
        }
    }
}

proof fn lemma_row_deeds(row: int, ple: int, layers: nat)
    requires
        0 <= row <= usize::MAX,
    ensures
        forall|j: int|
            0 <= j < row_deeds(row, ple, layers).len() ==> {
                let y = #[trigger] row_deeds(row, ple, layers)[j];
                y.row == row && 0 <= y.layer < layers
            },
    decreases layers,
{
    if layers > 0 {
        let before = row_deeds(row, ple, (layers - 1) as nat);
        let memory = layers - 1 == ple;
        lemma_row_deeds(row, ple, (layers - 1) as nat);
        assert forall|j: int| 0 <= j < row_deeds(row, ple, layers).len() implies {
            let y = #[trigger] row_deeds(row, ple, layers)[j];
            y.row == row && 0 <= y.layer < layers
        } by {
            let y = row_deeds(row, ple, layers)[j];
            if j < before.len() {
                assert(y == before[j]);
            } else {
                let i = j - before.len();
                assert(y == in_layer(whole_row(memory, row), layers - 1)[i]);
                assert(whole_row(memory, row)[i].1 == row as usize);
            }
        }
    }
}

/// The last row of a chunk can go through all layers after the others.
proof fn lemma_last_row<M, A, D>(
    k: LayerWork<M, A, D>,
    w: LayerWorld<M, A, D>,
    n: nat,
    ple: int,
    layers: nat,
)
    requires
        n < usize::MAX,
    ensures
        run(k, w, chunk_deeds(n + 1, ple, layers)) == run(
            k,
            run(k, w, chunk_deeds(n, ple, layers)),
            row_deeds(n as int, ple, layers),
        ),
    decreases layers,
{
    if layers > 0 {
        let m = (layers - 1) as nat;
        let memory = m == ple;
        let all = in_layer(chunk_order(n + 1, memory), m as int);
        let others = in_layer(chunk_order(n, memory), m as int);
        let last = in_layer(whole_row(memory, n as int), m as int);
        let row = row_deeds(n as int, ple, m);
        lemma_last_row(k, w, n, ple, m);
        let w0 = run(k, w, chunk_deeds(n, ple, m));
        lemma_run_append(k, w, chunk_deeds(n + 1, ple, m), all);
        law_the_last_row_can_wait(k, run(k, w0, row), n, memory, m as int);
        lemma_row_deeds(n as int, ple, m);
        lemma_chunk_rows(n, memory, m as int);
        assert(all_apart(row, others));
        lemma_swap_blocks(k, w0, row, others);
        lemma_run_append(k, w, chunk_deeds(n, ple, m), others);
        lemma_run_append(k, run(k, w0, others), row, last);
    } else {
        assert(chunk_deeds(n + 1, ple, layers) =~= Seq::empty());
    }
}

/// A chunk leaves the model as its tokens would one by one: whatever the layers compute, all rows
/// going through a layer, and there through one phase, before any goes on gives the same rows, and
/// the same memory and attention in every layer, as each row being through all layers before the
/// next begins.
pub proof fn law_a_chunk_leaves_what_its_tokens_leave<M, A, D>(
    k: LayerWork<M, A, D>,
    w: LayerWorld<M, A, D>,
    n: nat,
    ple: int,
    layers: nat,
)
    requires
        n <= usize::MAX,
    ensures
        run(k, w, chunk_deeds(n, ple, layers)) == run(k, w, token_deeds(n, ple, layers)),
    decreases n,
{
    if n == 0 {
        lemma_empty_chunk(ple, layers);
    } else {
        let m = (n - 1) as nat;
        law_a_chunk_leaves_what_its_tokens_leave(k, w, m, ple, layers);
        lemma_last_row(k, w, m, ple, layers);
        lemma_run_append(k, w, token_deeds(m, ple, layers), row_deeds(m as int, ple, layers));
    }
}

proof fn lemma_empty_chunk(ple: int, layers: nat)
    ensures
        chunk_deeds(0, ple, layers) == Seq::<Deed>::empty(),
    decreases layers,
{
    if layers > 0 {
        lemma_empty_chunk(ple, (layers - 1) as nat);
        assert(chunk_order(0, layers - 1 == ple) =~= Seq::empty());
        assert(chunk_deeds(0, ple, layers) =~= Seq::empty());
    }
}

/// What the layers compute for one token: up to the experts of a layer, of the state and the
/// streams; the experts, of what they are given; and what is added to the streams in the end.
#[verifier::reject_recursive_types(S)]
#[verifier::reject_recursive_types(T)]
pub struct TokenWork<S, T> {
    pub before: spec_fn(int, S, Seq<T>) -> (S, LayerHalf<T>),
    pub experts: spec_fn(int, Seq<T>) -> Seq<T>,
    pub inject: spec_fn(Seq<T>, Seq<T>, Seq<T>) -> Seq<T>,
}

/// What a token has in the middle of a layer: what the experts are given, the weights of the
/// streams, and the streams.
pub struct LayerHalf<T> {
    pub x: Seq<T>,
    pub inj: Seq<T>,
    pub stream: Seq<T>,
}

/// Where a token is: before a layer, or stopped in one.
pub enum TokenPlace<T> {
    Before { layer: int, stream: Seq<T> },
    Stopped(TokenPause<T>),
}

/// A token on its way through the layers, and the state that it changes.
pub struct Passage<S, T> {
    pub state: S,
    pub place: TokenPlace<T>,
}

impl<T> TokenPause<T> {
    /// What the token had when it stopped.
    pub open spec fn half(self) -> LayerHalf<T> {
        LayerHalf { x: self.x@, inj: self.inj@, stream: self.stream@ }
    }
}

/// The streams behind a layer.
pub open spec fn behind_layer<S, T>(k: TokenWork<S, T>, layer: int, half: LayerHalf<T>) -> Seq<T> {
    (k.inject)(half.stream, half.inj, (k.experts)(layer, half.x))
}

/// Whether a token gets from one place to the other in one step: it goes through a layer, or as
/// far as its experts and stops; or, stopped, it goes through the rest of the layer, or stops again
/// for other experts.
pub open spec fn steps<S, T>(
    k: TokenWork<S, T>,
    layers: int,
    a: Passage<S, T>,
    b: Passage<S, T>,
) -> bool {
    match a.place {
        TokenPlace::Before { layer, stream } => {
            let (state, half) = (k.before)(layer, a.state, stream);
            &&& layer < layers
            &&& b.state == state
            &&& match b.place {
                TokenPlace::Before { layer: l, stream: s } => l == layer + 1 && s == behind_layer(
                    k,
                    layer,
                    half,
                ),
                TokenPlace::Stopped(p) => p.layer == layer && p.half() == half,
            }
        },
        TokenPlace::Stopped(q) => {
            &&& q.layer < layers
            &&& b.state == a.state
            &&& match b.place {
                TokenPlace::Before { layer: l, stream: s } => l == q.layer + 1 && s == behind_layer(
                    k,
                    q.layer as int,
                    q.half(),
                ),
                TokenPlace::Stopped(p) => p.layer == q.layer && p.half() == q.half(),
            }
        },
    }
}

/// The state and the streams that are left when a token goes from before a layer through to the
/// end and never stops.
pub open spec fn straight<S, T>(
    k: TokenWork<S, T>,
    layers: int,
    layer: int,
    state: S,
    stream: Seq<T>,
) -> (S, Seq<T>)
    decreases layers - layer,
{
    if layer >= layers {
        (state, stream)
    } else {
        let (after, half) = (k.before)(layer, state, stream);
        straight(k, layers, layer + 1, after, behind_layer(k, layer, half))
    }
}

/// The state and the streams that are left when a token goes on from where it is and never stops
/// any more.
pub open spec fn left_by<S, T>(k: TokenWork<S, T>, layers: int, r: Passage<S, T>) -> (S, Seq<T>) {
    match r.place {
        TokenPlace::Before { layer, stream } => straight(k, layers, layer, r.state, stream),
        TokenPlace::Stopped(p) => straight(
            k,
            layers,
            p.layer + 1,
            r.state,
            behind_layer(k, p.layer as int, p.half()),
        ),
    }
}

/// However often a token stops, and wherever: whatever the layers compute, it leaves the state and
/// the streams that it leaves when it never stops.
pub proof fn law_stopping_changes_nothing<S, T>(
    k: TokenWork<S, T>,
    layers: int,
    state: S,
    stream: Seq<T>,
    way: Seq<Passage<S, T>>,
)
    requires
        way.len() > 0,
        way[0] == (Passage { state, place: TokenPlace::Before { layer: 0, stream } }),
        forall|i: int|
            0 <= i < way.len() - 1 ==> steps(k, layers, #[trigger] way[i], way[i + 1]),
    ensures
        match way.last().place {
            TokenPlace::Before { layer, stream: end } => layer >= layers ==> (
                way.last().state,
                end,
            ) == straight(k, layers, 0, state, stream),
            TokenPlace::Stopped(_) => true,
        },
{
    lemma_way(k, layers, way, way.len() - 1);
}

proof fn lemma_way<S, T>(k: TokenWork<S, T>, layers: int, way: Seq<Passage<S, T>>, n: int)
    requires
        0 <= n < way.len(),
        forall|i: int|
            0 <= i < way.len() - 1 ==> steps(k, layers, #[trigger] way[i], way[i + 1]),
    ensures
        left_by(k, layers, way[n]) == left_by(k, layers, way[0]),
    decreases n,
{
    if n > 0 {
        lemma_way(k, layers, way, n - 1);
        assert(steps(k, layers, way[n - 1], way[n - 1 + 1]));
    }
}

/// A token that stops and is fed again is where it stopped: what the scheduler kept is a place that
/// one step leads to from before the layer, and the next step goes on from it.
pub proof fn law_the_scheduler_keeps_the_place<S, T>(
    k: TokenWork<S, T>,
    layers: int,
    r: Passage<S, T>,
    s: Scheduler<T>,
    p: TokenPause<T>,
)
    requires
        r.place is Before,
        r.place->layer == p.layer,
        p.layer < layers,
        p.half() == (k.before)(p.layer as int, r.state, r.place->stream).1,
    ensures
        ({
            let state = (k.before)(p.layer as int, r.state, r.place->stream).0;
            &&& resumed(stopped(s, p), p.token, p.pos) == Some(p)
            &&& steps(k, layers, r, Passage { state, place: TokenPlace::Stopped(p) })
            &&& left_by(k, layers, Passage { state, place: TokenPlace::Stopped(p) }) == left_by(
                k,
                layers,
                r,
            )
        }),
{
}

} // verus!
