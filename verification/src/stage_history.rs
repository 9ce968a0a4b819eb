//! What holds of a staging arena after any number of calls.
//!
//! A history is the list of the calls made on an arena, each with its arguments. The laws here
//! speak of the arena that a history leads to, whatever the calls were and in whatever order they
//! came.

use vstd::prelude::*;

use crate::hybrid_stage::{
    first_slot, fresh_arena, lemma_begin_request_wf, lemma_begin_token_wf, lemma_claimed_distinct,
    lemma_first_slot, slot_matches, ArenaView, RowView, SlotTag, StageSlot, StagedTake, StatsView, FREE,
};

verus! {

/// One call that changes an arena.
pub enum ArenaStep {
    BeginRequest { in_flight: Seq<i32> },
    BeginToken { in_flight: Seq<i32> },
    Lookup { layer: int, expert: u32, complete: Option<bool> },
    ClaimDemand { layer: int, expert: u32 },
    ClaimStage { layer: int, expert: u32 },
    SetEvent { layer: int, expert: u32, event: i64 },
    Consume { layer: int, expert: u32 },
    RecordSubmit { layer: int, bytes: usize },
    RecordConsume { layer: int, bytes: usize },
    RecordHit { layer: int, bytes: usize, late: bool },
    RecordDemand { layer: int, staged: bool, bytes: usize },
    RecordRoute { staged_hits: usize, route_width: usize },
    SetEnabled { enabled: bool },
}

/// The arena after one call.
pub open spec fn after(a: ArenaView, step: ArenaStep) -> ArenaView {
    match step {
        ArenaStep::BeginRequest { in_flight } => a.begin_request(in_flight),
        ArenaStep::BeginToken { in_flight } => a.begin_token(in_flight),
        ArenaStep::Lookup { layer, expert, complete } => a.looked_up(layer, expert, complete),
        ArenaStep::ClaimDemand { layer, expert } => a.demand_claimed(layer, expert),
        ArenaStep::ClaimStage { layer, expert } => a.stage_claimed(layer, expert),
        ArenaStep::SetEvent { layer, expert, event } => a.event_set(layer, expert, event),
        ArenaStep::Consume { layer, expert } => a.consumed(layer, expert),
        ArenaStep::RecordSubmit { layer, bytes } => a.with_stats(
            a.stats.submitted(layer, bytes as int),
        ),
        ArenaStep::RecordConsume { layer, bytes } => a.with_stats(
            a.stats.used(layer, bytes as int),
        ),
        ArenaStep::RecordHit { layer, bytes, late } => a.with_stats(
            a.stats.hit(layer, bytes as int, late),
        ),
        ArenaStep::RecordDemand { layer, staged, bytes } => a.with_stats(
            a.stats.demanded(layer, staged, bytes as int),
        ),
        ArenaStep::RecordRoute { staged_hits, route_width } => a.with_stats(
            a.stats.routed(staged_hits as int, route_width as int),
        ),
        ArenaStep::SetEnabled { enabled } => ArenaView {
            enabled: enabled && a.candidates > 0,
            ..a
        },
    }
}

/// The arena after a history.
pub open spec fn after_all(a: ArenaView, steps: Seq<ArenaStep>) -> ArenaView
    decreases steps.len(),
{
    if steps.len() == 0 {
        a
    } else {
        after(after_all(a, steps.drop_last()), steps.last())
    }
}

/// Whether a call can be made: what it counts has a row, and no number of calls is at its limit.
pub open spec fn can_take(a: ArenaView, step: ArenaStep) -> bool {
    match step {
        ArenaStep::Lookup { .. } => a.stats.stale_rejected < u64::MAX,
        ArenaStep::ClaimStage { .. } => a.stats.unplaced < u64::MAX,
        ArenaStep::RecordSubmit { layer, .. } => a.has(layer),
        ArenaStep::RecordConsume { layer, .. } => a.has(layer),
        ArenaStep::RecordHit { layer, .. } => {
            &&& a.has(layer)
            &&& a.stats.late < u64::MAX
            &&& a.stats.hits < u64::MAX
        },
        ArenaStep::RecordDemand { layer, .. } => {
            &&& a.has(layer)
            &&& a.stats.demand_reads < u64::MAX
            &&& a.stats.duplicate_reads < u64::MAX
            &&& a.stats.per_layer[layer].3 < u64::MAX
        },
        ArenaStep::RecordRoute { staged_hits, route_width } => {
            &&& a.stats.recall_hits + staged_hits <= u64::MAX
            &&& a.stats.recall_total + route_width <= u64::MAX
            &&& a.stats.route_layers < u64::MAX
            &&& a.stats.full_route_layers < u64::MAX
        },
        _ => true,
    }
}

/// Whether every call of a history can be made where it comes.
pub open spec fn can_take_all(a: ArenaView, steps: Seq<ArenaStep>) -> bool
    decreases steps.len(),
{
    steps.len() > 0 ==> {
        &&& can_take_all(a, steps.drop_last())
        &&& can_take(after_all(a, steps.drop_last()), steps.last())
    }
}

/// Whether what a call counts by layer has a row.
pub open spec fn counts_a_layer(a: ArenaView, step: ArenaStep) -> bool {
    match step {
        ArenaStep::RecordSubmit { layer, .. } => a.has(layer),
        ArenaStep::RecordConsume { layer, .. } => a.has(layer),
        ArenaStep::RecordHit { layer, .. } => a.has(layer),
        ArenaStep::RecordDemand { layer, .. } => a.has(layer),
        _ => true,
    }
}

/// Whether what the calls of a history count by layer has rows.
pub open spec fn counts_layers(a: ArenaView, steps: Seq<ArenaStep>) -> bool {
    forall|k: int| 0 <= k < steps.len() ==> counts_a_layer(a, #[trigger] steps[k])
}

/// Whether a call takes a slot for an expert.
pub open spec fn takes_a_slot(step: ArenaStep) -> bool {
    step is ClaimStage || step is ClaimDemand
}

/// Whether the bytes that a call counts fit in their total.
pub open spec fn fits(a: ArenaView, step: ArenaStep) -> bool {
    match step {
        ArenaStep::RecordSubmit { bytes, .. } => a.stats.staged_bytes + bytes <= u64::MAX,
        ArenaStep::RecordConsume { bytes, .. } => a.stats.consumed_bytes + bytes <= u64::MAX,
        ArenaStep::RecordHit { bytes, .. } => a.stats.consumed_bytes + bytes <= u64::MAX,
        ArenaStep::RecordDemand { bytes, .. } => a.stats.demand_bytes + bytes <= u64::MAX,
        _ => true,
    }
}

/// Whether every call of a history counts bytes that fit.
pub open spec fn fits_all(a: ArenaView, steps: Seq<ArenaStep>) -> bool
    decreases steps.len(),
{
    steps.len() > 0 ==> {
        &&& fits_all(a, steps.drop_last())
        &&& fits(after_all(a, steps.drop_last()), steps.last())
    }
}

/// Whether a call stages for the next token and does nothing else.
pub open spec fn stages(step: ArenaStep) -> bool {
    step is ClaimStage || step is SetEvent
}

/// The number of demand reads in a history.
pub open spec fn demand_calls(steps: Seq<ArenaStep>) -> nat
    decreases steps.len(),
{
    if steps.len() == 0 {
        0
    } else {
        demand_calls(steps.drop_last()) + if steps.last() is RecordDemand {
            1nat
        } else {
            0nat
        }
    }
}

/// Whether a call counts a demand read of an expert that was staged.
pub open spec fn reads_staged(step: ArenaStep) -> bool {
    step matches ArenaStep::RecordDemand { staged, .. } && staged
}

/// The number of demand reads in a history whose expert was staged.
pub open spec fn duplicate_calls(steps: Seq<ArenaStep>) -> nat
    decreases steps.len(),
{
    if steps.len() == 0 {
        0
    } else {
        duplicate_calls(steps.drop_last()) + if reads_staged(steps.last()) {
            1nat
        } else {
            0nat
        }
    }
}

/// One counter of a layer: the bytes staged, used and demanded, and the demand reads.
pub open spec fn cell(row: (u64, u64, u64, u64), column: int) -> int {
    if column == 0 {
        row.0 as int
    } else if column == 1 {
        row.1 as int
    } else if column == 2 {
        row.2 as int
    } else {
        row.3 as int
    }
}

/// One counter, summed over the layers.
pub open spec fn column_sum(rows: Seq<(u64, u64, u64, u64)>, column: int) -> int
    decreases rows.len(),
{
    if rows.len() == 0 {
        0
    } else {
        column_sum(rows.drop_last(), column) + cell(rows.last(), column)
    }
}

/// Whether the counters of the layers add up to the totals.
pub open spec fn adds_up(stats: StatsView) -> bool {
    &&& column_sum(stats.per_layer, 0) == stats.staged_bytes
    &&& column_sum(stats.per_layer, 1) == stats.consumed_bytes
    &&& column_sum(stats.per_layer, 2) == stats.demand_bytes
    &&& column_sum(stats.per_layer, 3) == stats.demand_reads
}

proof fn lemma_column_update(
    rows: Seq<(u64, u64, u64, u64)>,
    column: int,
    at: int,
    row: (u64, u64, u64, u64),
)
    requires
        0 <= at < rows.len(),
    ensures
        column_sum(rows.update(at, row), column) == column_sum(rows, column) - cell(
            rows[at],
            column,
        ) + cell(row, column),
        cell(rows[at], column) <= column_sum(rows, column),
        0 <= column_sum(rows, column),
    decreases rows.len(),
{
    let new = rows.update(at, row);
    let short = rows.drop_last();
    if at < rows.len() - 1 {
        assert(new.drop_last() =~= short.update(at, row));
        lemma_column_update(short, column, at, row);
    } else {
        assert(new.drop_last() =~= short);
        if short.len() > 0 {
            lemma_column_update(short, column, 0, short[0]);
        }
    }
}

proof fn lemma_column_zero(rows: Seq<(u64, u64, u64, u64)>, column: int)
    requires
        forall|i: int| 0 <= i < rows.len() ==> #[trigger] rows[i] == (0u64, 0u64, 0u64, 0u64),
    ensures
        column_sum(rows, column) == 0,
    decreases rows.len(),
{
    if rows.len() > 0 {
        lemma_column_zero(rows.drop_last(), column);
    }
}

proof fn lemma_row_change_wf(a: ArenaView, r: int, row: RowView)
    requires
        a.wf(),
        0 <= r < a.rows.len(),
        row.stage.len() == a.candidates,
        row.slots == a.rows[r].slots,
        row.stride == a.stride,
        row.distinct(),
        row.dated(a.request_generation),
    ensures
        a.with_row(r, row).wf(),
{
    let b = a.with_row(r, row);
    assert forall|q: int| 0 <= q < b.rows.len() implies {
        &&& (#[trigger] b.rows[q]).stage.len() == b.candidates
        &&& b.rows[q].slots.len() == b.candidates
        &&& b.rows[q].stride == b.stride
        &&& b.rows[q].distinct()
        &&& b.rows[q].dated(b.request_generation)
    } by {
        assert(a.rows[q].stage.len() == a.candidates);
    }
}

/// A slot rewritten in place, with its expert and tag kept, leaves its row as distinct and as
/// dated as it was.
proof fn lemma_rewrite(row: RowView, i: int, e: StageSlot, request: u64)
    requires
        row.distinct(),
        row.dated(request),
        0 <= i < row.stage.len(),
        e.expert == row.stage[i].expert,
        e.tag == row.stage[i].tag,
    ensures
        (RowView { stage: row.stage.update(i, e), ..row }).distinct(),
        (RowView { stage: row.stage.update(i, e), ..row }).dated(request),
{
    let new = RowView { stage: row.stage.update(i, e), ..row };
    assert forall|x: int, y: int|
        #![trigger new.stage[x], new.stage[y]]
        0 <= x < y < new.stage.len() && new.stage[x].expert != FREE && new.stage[x].expert
            == new.stage[y].expert implies new.stage[x].tag != new.stage[y].tag by {
        assert(row.stage[x].expert == new.stage[x].expert);
        assert(row.stage[y].expert == new.stage[y].expert);
    }
    assert forall|x: int| 0 <= x < new.stage.len() implies (
    #[trigger] new.stage[x]).tag.request_generation <= request by {
        assert(row.stage[x].tag.request_generation <= request);
    }
}

proof fn lemma_occupy(a: ArenaView, r: int, expert: u32, token: u64)
    requires
        a.wf(),
        0 <= r < a.rows.len(),
        a.rows[r].claim(
            expert,
            (SlotTag {
                request_generation: a.request_generation,
                token_generation: token,
            }),
        ) is Some,
    ensures
        ({
            let tag = SlotTag {
                request_generation: a.request_generation,
                token_generation: token,
            };
            let row = a.rows[r];
            a.with_row(r, row.occupy(row.claim(expert, tag)->0, expert, tag)).wf()
        }),
{
    let tag = SlotTag {
        request_generation: a.request_generation,
        token_generation: token,
    };
    let row = a.rows[r];
    lemma_first_slot(row.stage, expert, Some(tag));
    lemma_first_slot(row.stage, FREE, None);
    lemma_claimed_distinct(row, expert, tag);
    let new = row.occupy(row.claim(expert, tag)->0, expert, tag);
    assert forall|x: int| 0 <= x < new.stage.len() implies (
    #[trigger] new.stage[x]).tag.request_generation <= a.request_generation by {
        assert(row.stage[x].tag.request_generation <= a.request_generation);
    }
    lemma_row_change_wf(a, r, new);
}

proof fn lemma_after_wf(a: ArenaView, step: ArenaStep)
    requires
        a.wf(),
        counts_a_layer(a, step),
    ensures
        after(a, step).wf(),
{
    match step {
        ArenaStep::BeginRequest { in_flight } => {
            lemma_begin_request_wf(a, in_flight);
        },
        ArenaStep::BeginToken { in_flight } => {
            lemma_begin_token_wf(a, in_flight);
        },
        ArenaStep::ClaimDemand { layer, expert } => {
            if a.demand_place(layer, expert) is Some {
                lemma_occupy(
                    a,
                    2 * layer + a.served_parity(),
                    expert,
                    a.consume_tag().token_generation,
                );
            }
        },
        ArenaStep::ClaimStage { layer, expert } => {
            if a.stage_place(layer, expert) is Some {
                lemma_occupy(
                    a,
                    2 * layer + a.fill_parity(),
                    expert,
                    a.stage_tag().token_generation,
                );
            }
        },
        ArenaStep::SetEvent { layer, expert, event } => {
            if a.has(layer) {
                let row = a.filled(layer);
                lemma_first_slot(row.stage, expert, Some(a.stage_tag()));
                if let Some(i) = row.find(expert, a.stage_tag()) {
                    let e = StageSlot { event, ..row.stage[i] };
                    lemma_rewrite(row, i, e, a.request_generation);
                    lemma_row_change_wf(
                        a,
                        2 * layer + a.fill_parity(),
                        RowView { stage: row.stage.update(i, e), ..row },
                    );
                }
            }
        },
        ArenaStep::Consume { layer, expert } => {
            if a.can_consume(layer, expert) {
                let row = a.served(layer);
                lemma_first_slot(row.stage, expert, Some(a.consume_tag()));
                let i = row.find(expert, a.consume_tag())->0;
                let e = StageSlot { consumed: true, ..row.stage[i] };
                lemma_rewrite(row, i, e, a.request_generation);
                lemma_row_change_wf(
                    a,
                    2 * layer + a.served_parity(),
                    RowView { stage: row.stage.update(i, e), ..row },
                );
            }
        },
        _ => {},
    }
}

/// The arena that a history leads to is well formed, and its shape is that of the arena it began
/// with.
pub proof fn law_history_keeps_the_arena_well_formed(a: ArenaView, steps: Seq<ArenaStep>)
    requires
        a.wf(),
        counts_layers(a, steps),
    ensures
        after_all(a, steps).wf(),
        after_all(a, steps).layer_count == a.layer_count,
        after_all(a, steps).candidates == a.candidates,
        after_all(a, steps).stride == a.stride,
    decreases steps.len(),
{
    if steps.len() > 0 {
        let short = steps.drop_last();
        assert forall|k: int| 0 <= k < short.len() implies counts_a_layer(a, #[trigger] short[k]) by {
            assert(short[k] == steps[k]);
        }
        law_history_keeps_the_arena_well_formed(a, short);
        assert(counts_a_layer(a, steps[steps.len() - 1]));
        lemma_after_wf(after_all(a, short), steps.last());
    }
}

proof fn lemma_takes_counts(a: ArenaView, steps: Seq<ArenaStep>)
    requires
        can_take_all(a, steps),
    ensures
        counts_layers(a, steps),
        after_all(a, steps).layer_count == a.layer_count,
    decreases steps.len(),
{
    if steps.len() > 0 {
        let short = steps.drop_last();
        lemma_takes_counts(a, short);
        assert forall|k: int| 0 <= k < steps.len() implies counts_a_layer(a, #[trigger] steps[k]) by {
            if k < short.len() {
                assert(short[k] == steps[k]);
            } else {
                assert(can_take(after_all(a, short), steps[k]));
            }
        }
    }
}

/// Whatever was called on an arena since it was made, no row holds an expert in two slots for one
/// token of one request.
pub proof fn law_one_slot_per_expert_and_token(
    layers: nat,
    candidates: nat,
    stride: usize,
    slots: spec_fn(int) -> Seq<i32>,
    bufs: spec_fn(int) -> Seq<u64>,
    steps: Seq<ArenaStep>,
    r: int,
    i: int,
    j: int,
)
    requires
        forall|q: int| 0 <= q < 2 * layers ==> (#[trigger] slots(q)).len() == candidates,
        counts_layers(fresh_arena(layers, candidates, stride, slots, bufs), steps),
        0 <= r < 2 * layers,
        0 <= i < j < candidates,
    ensures
        ({
            let stage = after_all(
                fresh_arena(layers, candidates, stride, slots, bufs),
                steps,
            ).rows[r].stage;
            stage[i].expert != FREE ==> !(stage[i].expert == stage[j].expert && stage[i].tag
                == stage[j].tag)
        }),
{
    let a = fresh_arena(layers, candidates, stride, slots, bufs);
    assert(a.wf());
    law_history_keeps_the_arena_well_formed(a, steps);
    let row = after_all(a, steps).rows[r];
    assert(row.distinct());
    assert(row.stage.len() == candidates);
}

/// A claim for the next token says that its slot is new exactly where it took a free one, and then
/// changes that slot alone; where it says that the slot is not new, the arena is as it was.
pub proof fn law_claim_is_new_where_a_slot_was_free(a: ArenaView, layer: int, expert: u32)
    requires
        a.wf(),
        expert != FREE,
        a.stage_claim(layer, expert) is Some,
    ensures
        ({
            let fresh = (a.stage_claim(layer, expert)->0).2;
            let b = a.stage_claimed(layer, expert);
            let i = a.stage_place(layer, expert)->0;
            let r = 2 * layer + a.fill_parity();
            &&& 0 <= i < a.candidates
            &&& fresh <==> a.rows[r].stage[i].expert == FREE
            &&& !fresh ==> b == a
            &&& fresh ==> b == a.with_row(
                r,
                RowView {
                    stage: a.rows[r].stage.update(
                        i,
                        StageSlot { expert, tag: a.stage_tag(), event: 0, consumed: false },
                    ),
                    ..a.rows[r]
                },
            )
        }),
{
    lemma_first_slot(a.filled(layer).stage, expert, Some(a.stage_tag()));
    lemma_first_slot(a.filled(layer).stage, FREE, None);
}

proof fn lemma_staging_leaves_served(a: ArenaView, steps: Seq<ArenaStep>)
    requires
        a.wf(),
        forall|k: int| 0 <= k < steps.len() ==> stages(#[trigger] steps[k]),
    ensures
        ({
            let b = after_all(a, steps);
            &&& b.wf()
            &&& b.layer_count == a.layer_count
            &&& b.enabled == a.enabled
            &&& b.token_generation == a.token_generation
            &&& b.request_generation == a.request_generation
            &&& b.stats.stale_rejected == a.stats.stale_rejected
            &&& forall|at: int| a.has(at) ==> #[trigger] b.served(at) == a.served(at)
        }),
    decreases steps.len(),
{
    assert forall|k: int| 0 <= k < steps.len() implies counts_a_layer(a, #[trigger] steps[k]) by {
        assert(stages(steps[k]));
    }
    law_history_keeps_the_arena_well_formed(a, steps);
    if steps.len() > 0 {
        let m = after_all(a, steps.drop_last());
        assert forall|k: int| 0 <= k < steps.drop_last().len() implies stages(
            #[trigger] steps.drop_last()[k],
        ) by {
            assert(steps.drop_last()[k] == steps[k]);
        }
        lemma_staging_leaves_served(a, steps.drop_last());
        let b = after(m, steps.last());
        assert(stages(steps[steps.len() - 1]));
        assert forall|at: int| a.has(at) implies #[trigger] b.served(at) == a.served(at) by {
            assert(m.served(at) == a.served(at));
            assert(b.served(at) == m.served(at));
        }
    }
}

/// However much is staged for the next token, the current token finds what it would have found:
/// every lookup gives the same answer and counts as many stale entries as on an arena on which
/// nothing was staged.
pub proof fn law_staging_is_invisible_now(
    a: ArenaView,
    steps: Seq<ArenaStep>,
    at: int,
    wanted: u32,
    complete: Option<bool>,
)
    requires
        a.wf(),
        forall|k: int| 0 <= k < steps.len() ==> stages(#[trigger] steps[k]),
    ensures
        ({
            let b = after_all(a, steps);
            &&& b.take(at, wanted, complete) == a.take(at, wanted, complete)
            &&& b.looked_up(at, wanted, complete).stats.stale_rejected == a.looked_up(
                at,
                wanted,
                complete,
            ).stats.stale_rejected
        }),
{
    lemma_staging_leaves_served(a, steps);
    let b = after_all(a, steps);
    if a.has(at) {
        assert(b.served(at) == a.served(at));
    }
}

/// Whether everything that an arena holds was taken before the current request.
pub open spec fn holds_only_earlier(a: ArenaView) -> bool {
    forall|r: int, i: int|
        #![trigger a.rows[r].stage[i]]
        0 <= r < a.rows.len() && 0 <= i < a.rows[r].stage.len() && a.rows[r].stage[i].expert != FREE
            ==> a.rows[r].stage[i].tag.request_generation < a.request_generation
}

/// Whether the free slots of an arena name no load and no use.
pub open spec fn blank(a: ArenaView) -> bool {
    forall|r: int| 0 <= r < a.rows.len() ==> (#[trigger] a.rows[r]).free_is_blank()
}

proof fn lemma_request_earlier(a: ArenaView, in_flight: Seq<i32>)
    requires
        a.wf(),
        a.request_generation < u64::MAX || holds_only_earlier(a),
    ensures
        holds_only_earlier(a.begin_request(in_flight)),
        blank(a) ==> blank(a.begin_request(in_flight)),
{
    let b = a.begin_request(in_flight);
    assert forall|r: int, i: int|
        #![trigger b.rows[r].stage[i]]
        0 <= r < b.rows.len() && 0 <= i < b.rows[r].stage.len() && b.rows[r].stage[i].expert != FREE
        implies b.rows[r].stage[i].tag.request_generation < b.request_generation by {
        assert(a.rows[r].dated(a.request_generation));
        assert(b.rows[r].stage[i] == a.rows[r].stage[i]);
        assert(a.rows[r].stage[i].tag.request_generation <= a.request_generation);
    }
    if blank(a) {
        assert forall|r: int| 0 <= r < b.rows.len() implies (#[trigger] b.rows[r]).free_is_blank() by {
            assert(a.rows[r].free_is_blank());
            assert forall|i: int|
                0 <= i < b.rows[r].stage.len() && (#[trigger] b.rows[r].stage[i]).expert
                    == FREE implies b.rows[r].stage[i].event == 0
                && !b.rows[r].stage[i].consumed by {
                assert(a.rows[r].stage[i].expert == FREE ==> a.rows[r].stage[i].event == 0);
            }
        }
    }
}

proof fn lemma_token_earlier(a: ArenaView, in_flight: Seq<i32>)
    requires
        a.wf(),
        holds_only_earlier(a),
    ensures
        holds_only_earlier(a.begin_token(in_flight)),
        blank(a) ==> blank(a.begin_token(in_flight)),
{
    let b = a.begin_token(in_flight);
    assert forall|r: int, i: int|
        #![trigger b.rows[r].stage[i]]
        0 <= r < b.rows.len() && 0 <= i < b.rows[r].stage.len() && b.rows[r].stage[i].expert != FREE
        implies b.rows[r].stage[i].tag.request_generation < b.request_generation by {
        assert(b.rows[r].stage[i] == a.rows[r].stage[i]);
    }
    if blank(a) {
        assert forall|r: int| 0 <= r < b.rows.len() implies (#[trigger] b.rows[r]).free_is_blank() by {
            assert(a.rows[r].free_is_blank());
            assert forall|i: int|
                0 <= i < b.rows[r].stage.len() && (#[trigger] b.rows[r].stage[i]).expert
                    == FREE implies b.rows[r].stage[i].event == 0
                && !b.rows[r].stage[i].consumed by {
                assert(a.rows[r].stage[i].expert == FREE ==> a.rows[r].stage[i].event == 0);
            }
        }
    }
}

/// A slot rewritten with its expert and tag kept was taken when it was.
proof fn lemma_rewrite_earlier(a: ArenaView, r: int, i: int, e: StageSlot)
    requires
        holds_only_earlier(a),
        0 <= r < a.rows.len(),
        0 <= i < a.rows[r].stage.len(),
        e.expert == a.rows[r].stage[i].expert,
        e.tag == a.rows[r].stage[i].tag,
    ensures
        holds_only_earlier(
            a.with_row(r, RowView { stage: a.rows[r].stage.update(i, e), ..a.rows[r] }),
        ),
{
    let b = a.with_row(r, RowView { stage: a.rows[r].stage.update(i, e), ..a.rows[r] });
    assert forall|q: int, j: int|
        #![trigger b.rows[q].stage[j]]
        0 <= q < b.rows.len() && 0 <= j < b.rows[q].stage.len() && b.rows[q].stage[j].expert != FREE
        implies b.rows[q].stage[j].tag.request_generation < b.request_generation by {
        assert(b.rows[q].stage[j].tag == a.rows[q].stage[j].tag);
        assert(b.rows[q].stage[j].expert == a.rows[q].stage[j].expert);
    }
}

proof fn lemma_after_earlier(a: ArenaView, step: ArenaStep)
    requires
        a.wf(),
        holds_only_earlier(a),
        !takes_a_slot(step),
    ensures
        holds_only_earlier(after(a, step)),
{
    match step {
        ArenaStep::BeginRequest { in_flight } => {
            lemma_request_earlier(a, in_flight);
        },
        ArenaStep::BeginToken { in_flight } => {
            lemma_token_earlier(a, in_flight);
        },
        ArenaStep::SetEvent { layer, expert, event } => {
            if a.has(layer) {
                let row = a.filled(layer);
                lemma_first_slot(row.stage, expert, Some(a.stage_tag()));
                if let Some(i) = row.find(expert, a.stage_tag()) {
                    let e = StageSlot { event, ..row.stage[i] };
                    lemma_rewrite_earlier(a, 2 * layer + a.fill_parity(), i, e);
                }
            }
        },
        ArenaStep::Consume { layer, expert } => {
            if a.can_consume(layer, expert) {
                let row = a.served(layer);
                lemma_first_slot(row.stage, expert, Some(a.consume_tag()));
                let i = row.find(expert, a.consume_tag())->0;
                let e = StageSlot { consumed: true, ..row.stage[i] };
                lemma_rewrite_earlier(a, 2 * layer + a.served_parity(), i, e);
            }
        },
        _ => {},
    }
}

proof fn lemma_history_earlier(a: ArenaView, steps: Seq<ArenaStep>)
    requires
        a.wf(),
        holds_only_earlier(a),
        counts_layers(a, steps),
        forall|k: int| 0 <= k < steps.len() ==> !takes_a_slot(#[trigger] steps[k]),
    ensures
        holds_only_earlier(after_all(a, steps)),
    decreases steps.len(),
{
    if steps.len() > 0 {
        let short = steps.drop_last();
        assert forall|k: int| 0 <= k < short.len() implies counts_a_layer(a, #[trigger] short[k])
            && !takes_a_slot(short[k]) by {
            assert(short[k] == steps[k]);
        }
        lemma_history_earlier(a, short);
        law_history_keeps_the_arena_well_formed(a, short);
        assert(!takes_a_slot(steps[steps.len() - 1]));
        lemma_after_earlier(after_all(a, short), steps.last());
    }
}

proof fn lemma_earlier_is_missed(a: ArenaView, layer: int, expert: u32, complete: Option<bool>)
    requires
        a.wf(),
        holds_only_earlier(a),
        a.enabled,
        a.has(layer),
        expert != FREE || blank(a),
    ensures
        a.take(layer, expert, complete) == Some(StagedTake::Miss),
{
    let r = 2 * layer + a.served_parity();
    lemma_first_slot(a.rows[r].stage, expert, Some(a.consume_tag()));
    if let Some(i) = a.served(layer).find(expert, a.consume_tag()) {
        let e = a.rows[r].stage[i];
        assert(e.expert == expert && e.tag == a.consume_tag());
        assert(expert == FREE);
        assert(a.rows[r].free_is_blank());
        assert(e.event == 0);
    }
}

/// No byte of an earlier request is ever served: from the beginning of a request on, and until a
/// slot is taken, whatever else is called and however many tokens begin, an arena that is on finds
/// nothing in any layer.
pub proof fn law_nothing_of_an_earlier_request_is_served(
    a: ArenaView,
    in_flight: Seq<i32>,
    steps: Seq<ArenaStep>,
    layer: int,
    expert: u32,
    complete: Option<bool>,
)
    requires
        a.wf(),
        a.request_generation < u64::MAX,
        counts_layers(a, steps),
        forall|k: int| 0 <= k < steps.len() ==> !takes_a_slot(#[trigger] steps[k]),
        expert != FREE,
    ensures
        ({
            let b = after_all(a.begin_request(in_flight), steps);
            b.take(layer, expert, complete) == (if b.enabled && a.has(layer) {
                Some(StagedTake::Miss)
            } else {
                None
            })
        }),
{
    let start = a.begin_request(in_flight);
    lemma_begin_request_wf(a, in_flight);
    lemma_request_earlier(a, in_flight);
    assert(counts_layers(start, steps)) by {
        assert forall|k: int| 0 <= k < steps.len() implies counts_a_layer(
            start,
            #[trigger] steps[k],
        ) by {
            assert(counts_a_layer(a, steps[k]));
        }
    }
    lemma_history_earlier(start, steps);
    law_history_keeps_the_arena_well_formed(start, steps);
    let b = after_all(start, steps);
    if b.enabled && b.has(layer) {
        lemma_earlier_is_missed(b, layer, expert, complete);
    }
}

/// The arena after a number of tokens began, each with the loads that were in flight then.
pub open spec fn after_tokens(a: ArenaView, in_flight: Seq<Seq<i32>>) -> ArenaView
    decreases in_flight.len(),
{
    if in_flight.len() == 0 {
        a
    } else {
        after_tokens(a, in_flight.drop_last()).begin_token(in_flight.last())
    }
}

proof fn lemma_tokens_earlier(a: ArenaView, in_flight: Seq<Seq<i32>>)
    requires
        a.wf(),
        holds_only_earlier(a),
    ensures
        ({
            let b = after_tokens(a, in_flight);
            &&& b.wf()
            &&& holds_only_earlier(b)
            &&& blank(a) ==> blank(b)
            &&& b.enabled == a.enabled
            &&& b.layer_count == a.layer_count
            &&& b.candidates == a.candidates
            &&& b.stride == a.stride
            &&& b.stats == a.stats
            &&& b.request_generation == a.request_generation
        }),
    decreases in_flight.len(),
{
    if in_flight.len() > 0 {
        lemma_tokens_earlier(a, in_flight.drop_last());
        let m = after_tokens(a, in_flight.drop_last());
        lemma_token_earlier(m, in_flight.last());
        lemma_begin_token_wf(m, in_flight.last());
    }
}

/// A new request has the next number and begins at its first token, and none of its tokens finds
/// anything in any layer until a slot is taken, however many of them begin; the arena is otherwise
/// what it was. The mark of a free slot is found no more than an expert is, where free slots name no
/// load.
pub proof fn law_no_token_of_a_new_request_finds_what_was_staged_before(
    a: ArenaView,
    in_flight: Seq<i32>,
    tokens: Seq<Seq<i32>>,
    layer: int,
    expert: u32,
    complete: Option<bool>,
)
    requires
        a.wf(),
        a.enabled,
        a.has(layer),
        a.request_generation < u64::MAX,
        expert != FREE || blank(a),
    ensures
        ({
            let b = a.begin_request(in_flight);
            let c = after_tokens(b, tokens);
            &&& c.take(layer, expert, complete) == Some(StagedTake::Miss)
            &&& b.request_generation == a.request_generation + 1
            &&& b.token_generation == 0
            &&& c.request_generation == b.request_generation
            &&& c.enabled == a.enabled
            &&& c.layer_count == a.layer_count
            &&& c.candidates == a.candidates
            &&& c.stride == a.stride
            &&& c.stats == a.stats
        }),
{
    let b = a.begin_request(in_flight);
    lemma_begin_request_wf(a, in_flight);
    lemma_request_earlier(a, in_flight);
    lemma_tokens_earlier(b, tokens);
    lemma_earlier_is_missed(after_tokens(b, tokens), layer, expert, complete);
}

/// The history that stages a list of experts on one layer.
pub open spec fn claims(layer: int, experts: Seq<u32>) -> Seq<ArenaStep> {
    experts.map_values(|e: u32| ArenaStep::ClaimStage { layer, expert: e })
}

proof fn lemma_claims_fill(a: ArenaView, layer: int, experts: Seq<u32>)
    requires
        a.wf(),
        a.enabled,
        a.has(layer),
        a.filled(layer).empty(),
        experts.no_duplicates(),
        !experts.contains(FREE),
        experts.len() <= a.candidates,
    ensures
        ({
            let b = after_all(a, claims(layer, experts));
            &&& b == a.with_row(2 * layer + a.fill_parity(), b.filled(layer))
            &&& b.filled(layer).slots == a.filled(layer).slots
            &&& b.filled(layer).stage.len() == a.candidates
            &&& forall|i: int|
                0 <= i < a.candidates ==> {
                    let e = #[trigger] b.filled(layer).stage[i];
                    if i < experts.len() {
                        e.expert == experts[i] && e.tag == a.stage_tag()
                    } else {
                        e.expert == FREE
                    }
                }
        }),
    decreases experts.len(),
{
    let r = 2 * layer + a.fill_parity();
    if experts.len() == 0 {
        assert(claims(layer, experts).len() == 0);
        assert(a.with_row(r, a.filled(layer)).rows =~= a.rows);
    } else {
        let short = experts.drop_last();
        let n = short.len() as int;
        assert(claims(layer, experts).drop_last() =~= claims(layer, short));
        assert(!short.contains(FREE)) by {
            if short.contains(FREE) {
                let k = choose|k: int| 0 <= k < short.len() && short[k] == FREE;
                assert(experts[k] == FREE);
            }
        }
        lemma_claims_fill(a, layer, short);
        let m = after_all(a, claims(layer, short));
        let e = experts.last();
        let row = m.filled(layer);
        let tag = a.stage_tag();
        assert(experts[n] == e && e != FREE);
        assert(m.stage_tag() == tag);
        lemma_first_slot(row.stage, e, Some(tag));
        assert(row.find(e, tag) is None) by {
            if let Some(i) = row.find(e, tag) {
                assert(row.stage[i].expert == e);
                if i < n {
                    assert(experts[i] == experts[n]);
                }
            }
        }
        lemma_first_slot(row.stage, FREE, None);
        let f = first_slot(row.stage, FREE, None);
        assert(row.stage[n].expert == FREE);
        assert(slot_matches(row.stage[n], FREE, None));
        assert(f is Some);
        assert(f->0 == n) by {
            if f->0 < n {
                assert(row.stage[f->0].expert == experts[f->0]);
            }
        }
        let b = after_all(a, claims(layer, experts));
        assert(b == m.stage_claimed(layer, e));
        assert(b.filled(layer) == row.occupy(n, e, tag));
        assert(b.rows =~= a.with_row(r, b.filled(layer)).rows);
        assert forall|i: int| 0 <= i < a.candidates implies {
            let x = #[trigger] b.filled(layer).stage[i];
            if i < experts.len() {
                x.expert == experts[i] && x.tag == tag
            } else {
                x.expert == FREE
            }
        } by {
            if i != n {
                assert(b.filled(layer).stage[i] == row.stage[i]);
            }
        }
    }
}

/// A row that is empty takes as many distinct experts as it is wide, whatever the other row of its
/// layer holds: each gets the next slot, newly taken, and none is counted as not placed. A row that
/// has taken that many gives no slot to another expert.
pub proof fn law_row_takes_as_many_as_it_is_wide(
    a: ArenaView,
    layer: int,
    experts: Seq<u32>,
    k: int,
    more: u32,
)
    requires
        a.wf(),
        a.enabled,
        a.has(layer),
        a.filled(layer).empty(),
        experts.no_duplicates(),
        !experts.contains(FREE),
        experts.len() == a.candidates,
        0 <= k < experts.len(),
        more != FREE,
        !experts.contains(more),
    ensures
        after_all(a, claims(layer, experts.take(k))).stage_claim(layer, experts[k]) == Some(
            (a.filled(layer).slots[k], 0usize, true),
        ),
        after_all(a, claims(layer, experts)).stats == a.stats,
        after_all(a, claims(layer, experts)).stage_claim(layer, more) is None,
{
    let short = experts.take(k);
    assert(!short.contains(FREE)) by {
        if short.contains(FREE) {
            let j = choose|j: int| 0 <= j < short.len() && short[j] == FREE;
            assert(experts[j] == FREE);
        }
    }
    lemma_claims_fill(a, layer, short);
    let m = after_all(a, claims(layer, short));
    let row = m.filled(layer);
    let tag = a.stage_tag();
    assert(m.stage_tag() == tag);
    let e = experts[k];
    lemma_first_slot(row.stage, e, Some(tag));
    lemma_first_slot(row.stage, FREE, None);
    assert(row.stage[k].expert == FREE);
    assert(slot_matches(row.stage[k], FREE, None));
    if let Some(i) = row.find(e, tag) {
        assert(row.stage[i].expert == e);
        if i < k {
            assert(experts[i] == experts[k]);
        }
    }
    let f = first_slot(row.stage, FREE, None)->0;
    if f < k {
        assert(row.stage[f].expert == experts[f]);
    }
    lemma_claims_fill(a, layer, experts);
    let full = after_all(a, claims(layer, experts));
    let last = full.filled(layer);
    lemma_first_slot(last.stage, more, Some(tag));
    lemma_first_slot(last.stage, FREE, None);
    assert(full.stage_tag() == tag);
    if let Some(i) = last.find(more, tag) {
        assert(last.stage[i].expert == experts[i]);
    }
    if let Some(i) = first_slot(last.stage, FREE, None) {
        assert(last.stage[i].expert == experts[i]);
    }
}

/// The row that predictions fill is empty in a new arena, and where a token or a request has begun
/// with no load in flight.
pub proof fn law_fill_row_begins_empty(
    layers: nat,
    candidates: nat,
    stride: usize,
    slots: spec_fn(int) -> Seq<i32>,
    bufs: spec_fn(int) -> Seq<u64>,
    a: ArenaView,
    layer: int,
)
    requires
        a.wf(),
    ensures
        0 <= layer < layers ==> fresh_arena(layers, candidates, stride, slots, bufs).filled(
            layer,
        ).empty(),
        a.has(layer) ==> a.begin_token(Seq::empty()).filled(layer).empty(),
        a.has(layer) ==> a.begin_request(Seq::empty()).filled(layer).empty(),
{
    let none = Seq::<i32>::empty();
    if a.has(layer) {
        let b = a.begin_token(none);
        let r = 2 * layer + b.fill_parity();
        assert(b.rows[r] == a.rows[r].sweep(none));
        assert forall|i: int| 0 <= i < b.rows[r].stage.len() implies (
        #[trigger] b.rows[r].stage[i]).expert == FREE by {
            assert(!none.contains(a.rows[r].slots[i]));
        }
        let c = a.begin_request(none);
        let q = 2 * layer + c.fill_parity();
        assert forall|i: int| 0 <= i < c.rows[q].stage.len() implies (
        #[trigger] c.rows[q].stage[i]).expert == FREE by {
            assert(!none.contains(a.rows[q].slots[i]));
        }
    }
}

proof fn lemma_adds_up_step(a: ArenaView, step: ArenaStep)
    requires
        a.wf(),
        can_take(a, step),
        fits(a, step),
        adds_up(a.stats),
    ensures
        adds_up(after(a, step).stats),
{
    let rows = a.stats.per_layer;
    let b = after(a, step);
    match step {
        ArenaStep::RecordSubmit { layer, .. } => {
            lemma_layer_change(rows, layer, b.stats.per_layer[layer]);
        },
        ArenaStep::RecordConsume { layer, .. } => {
            lemma_layer_change(rows, layer, b.stats.per_layer[layer]);
        },
        ArenaStep::RecordHit { layer, .. } => {
            lemma_layer_change(rows, layer, b.stats.per_layer[layer]);
        },
        ArenaStep::RecordDemand { layer, .. } => {
            lemma_layer_change(rows, layer, b.stats.per_layer[layer]);
        },
        _ => {},
    }
}

proof fn lemma_layer_change(
    rows: Seq<(u64, u64, u64, u64)>,
    at: int,
    row: (u64, u64, u64, u64),
)
    requires
        0 <= at < rows.len(),
    ensures
        column_sum(rows.update(at, row), 0) == column_sum(rows, 0) - rows[at].0 + row.0,
        rows[at].0 <= column_sum(rows, 0),
        column_sum(rows.update(at, row), 1) == column_sum(rows, 1) - rows[at].1 + row.1,
        rows[at].1 <= column_sum(rows, 1),
        column_sum(rows.update(at, row), 2) == column_sum(rows, 2) - rows[at].2 + row.2,
        rows[at].2 <= column_sum(rows, 2),
        column_sum(rows.update(at, row), 3) == column_sum(rows, 3) - rows[at].3 + row.3,
        rows[at].3 <= column_sum(rows, 3),
{
    lemma_column_update(rows, 0, at, row);
    lemma_column_update(rows, 1, at, row);
    lemma_column_update(rows, 2, at, row);
    lemma_column_update(rows, 3, at, row);
}

/// The counters of the layers add up to the totals after every history of a new arena in which no
/// total passes its limit.
pub proof fn law_layers_add_up(
    layers: nat,
    candidates: nat,
    stride: usize,
    slots: spec_fn(int) -> Seq<i32>,
    bufs: spec_fn(int) -> Seq<u64>,
    steps: Seq<ArenaStep>,
)
    requires
        forall|q: int| 0 <= q < 2 * layers ==> (#[trigger] slots(q)).len() == candidates,
        can_take_all(fresh_arena(layers, candidates, stride, slots, bufs), steps),
        fits_all(fresh_arena(layers, candidates, stride, slots, bufs), steps),
    ensures
        ({
            let stats = after_all(
                fresh_arena(layers, candidates, stride, slots, bufs),
                steps,
            ).stats;
            adds_up(stats) && stats.per_layer.len() == layers
        }),
    decreases steps.len(),
{
    let a = fresh_arena(layers, candidates, stride, slots, bufs);
    assert(a.wf());
    lemma_takes_counts(a, steps);
    law_history_keeps_the_arena_well_formed(a, steps);
    if steps.len() == 0 {
        let rows = a.stats.per_layer;
        lemma_column_zero(rows, 0);
        lemma_column_zero(rows, 1);
        lemma_column_zero(rows, 2);
        lemma_column_zero(rows, 3);
    } else {
        lemma_takes_counts(a, steps.drop_last());
        law_history_keeps_the_arena_well_formed(a, steps.drop_last());
        law_layers_add_up(layers, candidates, stride, slots, bufs, steps.drop_last());
        lemma_adds_up_step(after_all(a, steps.drop_last()), steps.last());
    }
}

/// Counting a staging read changes the staged bytes, in total and of its layer, each by as many
/// bytes as were read, and no other counter.
pub proof fn law_submit_changes_staged_bytes_only(a: ArenaView, layer: int, bytes: usize)
    requires
        a.wf(),
        a.has(layer),
        a.stats.staged_bytes + bytes <= u64::MAX,
        a.stats.per_layer[layer].0 + bytes <= u64::MAX,
    ensures
        ({
            let s = a.stats;
            let t = after(a, ArenaStep::RecordSubmit { layer, bytes }).stats;
            let row = s.per_layer[layer];
            t == (StatsView {
                staged_bytes: (s.staged_bytes + bytes) as u64,
                per_layer: s.per_layer.update(
                    layer,
                    ((row.0 + bytes) as u64, row.1, row.2, row.3),
                ),
                ..s
            })
        }),
{
}

/// After every history of a new arena the demand reads are as many as were counted, the duplicate
/// reads as many of them as found their expert staged, and so never more; there is none exactly
/// where no staged expert was read on demand.
pub proof fn law_duplicate_reads_are_demand_reads(
    layers: nat,
    candidates: nat,
    stride: usize,
    slots: spec_fn(int) -> Seq<i32>,
    bufs: spec_fn(int) -> Seq<u64>,
    steps: Seq<ArenaStep>,
)
    requires
        forall|q: int| 0 <= q < 2 * layers ==> (#[trigger] slots(q)).len() == candidates,
        can_take_all(fresh_arena(layers, candidates, stride, slots, bufs), steps),
    ensures
        ({
            let stats = after_all(
                fresh_arena(layers, candidates, stride, slots, bufs),
                steps,
            ).stats;
            &&& stats.demand_reads == demand_calls(steps)
            &&& stats.duplicate_reads == duplicate_calls(steps)
            &&& stats.duplicate_reads <= stats.demand_reads
            &&& stats.duplicate_reads == 0 <==> forall|k: int|
                0 <= k < steps.len() ==> !reads_staged(#[trigger] steps[k])
        }),
    decreases steps.len(),
{
    let a = fresh_arena(layers, candidates, stride, slots, bufs);
    if steps.len() > 0 {
        let short = steps.drop_last();
        law_duplicate_reads_are_demand_reads(layers, candidates, stride, slots, bufs, short);
        let m = after_all(a, short);
        let last = steps.len() - 1;
        if reads_staged(steps.last()) {
            assert(reads_staged(steps[last]));
        } else if duplicate_calls(short) == 0 {
            assert forall|k: int| 0 <= k < steps.len() implies !reads_staged(
                #[trigger] steps[k],
            ) by {
                if k < last {
                    assert(short[k] == steps[k]);
                }
            }
        } else {
            let k = choose|k: int| 0 <= k < short.len() && reads_staged(#[trigger] short[k]);
            assert(steps[k] == short[k]);
        }
    }
}

/// Counting a demand read changes none of the counters of staging: hits, late hits, staged bytes
/// and used bytes stay.
pub proof fn law_demand_leaves_staging_counters(
    a: ArenaView,
    layer: int,
    staged: bool,
    bytes: usize,
)
    requires
        a.wf(),
        can_take(a, ArenaStep::RecordDemand { layer, staged, bytes }),
    ensures
        ({
            let s = a.stats;
            let t = after(a, ArenaStep::RecordDemand { layer, staged, bytes }).stats;
            &&& t.hits == s.hits
            &&& t.late == s.late
            &&& t.staged_bytes == s.staged_bytes
            &&& t.consumed_bytes == s.consumed_bytes
            &&& forall|l: int|
                0 <= l < a.layer_count ==> (#[trigger] t.per_layer[l]).0 == s.per_layer[l].0
                    && t.per_layer[l].1 == s.per_layer[l].1
        }),
{
}

} // verus!
