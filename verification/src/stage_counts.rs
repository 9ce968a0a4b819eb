//! What the staging arena counts, and which of its slots it finds, marks and waits for.

use vstd::prelude::*;

use crate::hybrid_stage::{
    first_slot, grown, slot_index, ArenaView, SlotTag, StageSlot, StagedTake, StatsView, FREE,
};

verus! {

/// Of the slots that hold an expert the first is found, under any tag or under one alone.
pub proof fn law_the_first_slot_of_an_expert_is_found(
    stage: Seq<StageSlot>,
    expert: u32,
    tag: SlotTag,
    i: int,
)
    ensures
        first_slot(stage, expert, None) == Some(i) <==> 0 <= i < stage.len() && stage[i].expert == expert
            && forall|k: int| 0 <= k < i ==> (#[trigger] stage[k]).expert != expert,
        first_slot(stage, expert, Some(tag)) == Some(i) <==> 0 <= i < stage.len() && stage[i].expert == expert
            && stage[i].tag == tag && forall|k: int|
            0 <= k < i ==> (#[trigger] stage[k]).expert != expert || stage[k].tag != tag,
        first_slot(stage, expert, None) is None <==> forall|k: int|
            0 <= k < stage.len() ==> (#[trigger] stage[k]).expert != expert,
        first_slot(stage, expert, Some(tag)) is None <==> forall|k: int|
            0 <= k < stage.len() ==> (#[trigger] stage[k]).expert != expert || stage[k].tag != tag,
{
    lemma_first(stage, expert, None);
    lemma_first(stage, expert, Some(tag));
}

proof fn lemma_first(stage: Seq<StageSlot>, expert: u32, tag: Option<SlotTag>)
    ensures
        match first_slot(stage, expert, tag) {
            Some(i) => 0 <= i < stage.len() && stage[i].expert == expert && (tag matches Some(t)
                ==> stage[i].tag == t) && forall|k: int|
                0 <= k < i ==> (#[trigger] stage[k]).expert != expert || (tag matches Some(t)
                    && stage[k].tag != t),
            None => forall|k: int|
                0 <= k < stage.len() ==> (#[trigger] stage[k]).expert != expert || (tag matches Some(t)
                    && stage[k].tag != t),
        },
    decreases stage.len(),
{
    if stage.len() > 0 {
        let short = stage.drop_last();
        lemma_first(short, expert, tag);
        assert forall|k: int| 0 <= k < short.len() implies #[trigger] stage[k] == short[k] by {}
    }
}

/// Of the blocks of a row the first with a slot is found.
pub proof fn law_the_first_block_of_a_slot_is_found(slots: Seq<i32>, slot: i32, i: int)
    ensures
        slot_index(slots, slot) == Some(i) <==> 0 <= i < slots.len() && slots[i] == slot && forall|k: int|
            0 <= k < i ==> #[trigger] slots[k] != slot,
        slot_index(slots, slot) is None <==> !slots.contains(slot),
{
    lemma_block(slots, slot);
}

proof fn lemma_block(slots: Seq<i32>, slot: i32)
    ensures
        match slot_index(slots, slot) {
            Some(i) => 0 <= i < slots.len() && slots[i] == slot && forall|k: int|
                0 <= k < i ==> #[trigger] slots[k] != slot,
            None => forall|k: int| 0 <= k < slots.len() ==> #[trigger] slots[k] != slot,
        },
    decreases slots.len(),
{
    if slots.len() > 0 {
        let short = slots.drop_last();
        lemma_block(short, slot);
        assert forall|k: int| 0 <= k < short.len() implies #[trigger] slots[k] == short[k] by {}
    }
}

/// Whether two counts differ in nothing but what belongs to bytes and to a layer.
pub open spec fn same_events(a: StatsView, b: StatsView) -> bool {
    &&& a.misses == b.misses
    &&& a.stale_rejected == b.stale_rejected
    &&& a.unplaced == b.unplaced
    &&& a.full_route_layers == b.full_route_layers
    &&& a.route_layers == b.route_layers
    &&& a.recall_hits == b.recall_hits
    &&& a.recall_total == b.recall_total
}

/// Whether the counts of all layers but one are the same.
pub open spec fn same_elsewhere(a: StatsView, b: StatsView, layer: int) -> bool {
    &&& a.per_layer.len() == b.per_layer.len()
    &&& forall|l: int|
        0 <= l < a.per_layer.len() && l != layer ==> #[trigger] a.per_layer[l] == b.per_layer[l]
}

/// Bytes that are staged count in the total and in their layer, and as nothing else.
pub proof fn law_staged_bytes_count_twice(s: StatsView, layer: int, bytes: int)
    requires
        0 <= layer < s.per_layer.len(),
        0 <= bytes,
        s.staged_bytes + bytes <= u64::MAX,
        s.per_layer[layer].0 + bytes <= u64::MAX,
    ensures
        ({
            let t = s.submitted(layer, bytes);
            let (was, now) = (s.per_layer[layer], t.per_layer[layer]);
            &&& t.staged_bytes - s.staged_bytes == bytes
            &&& now.0 - was.0 == bytes
            &&& (now.1, now.2, now.3) == (was.1, was.2, was.3)
            &&& (t.consumed_bytes, t.demand_bytes) == (s.consumed_bytes, s.demand_bytes)
            &&& (t.hits, t.late) == (s.hits, s.late)
            &&& (t.demand_reads, t.duplicate_reads) == (s.demand_reads, s.duplicate_reads)
            &&& same_events(s, t) && same_elsewhere(s, t, layer)
        }),
{
}

/// An expert that is there when it is wanted counts once, as in time or as late, and its bytes as used, in
/// the total and in its layer.
pub proof fn law_a_hit_counts_once(s: StatsView, layer: int, bytes: int, late: bool)
    requires
        0 <= layer < s.per_layer.len(),
        0 <= bytes,
        s.consumed_bytes + bytes <= u64::MAX,
        s.per_layer[layer].1 + bytes <= u64::MAX,
        s.hits < u64::MAX,
        s.late < u64::MAX,
    ensures
        ({
            let t = s.hit(layer, bytes, late);
            let (was, now) = (s.per_layer[layer], t.per_layer[layer]);
            &&& t.hits + t.late == s.hits + s.late + 1
            &&& late <==> t.late == s.late + 1
            &&& t.consumed_bytes - s.consumed_bytes == bytes
            &&& now.1 - was.1 == bytes
            &&& (now.0, now.2, now.3) == (was.0, was.2, was.3)
            &&& (t.staged_bytes, t.demand_bytes) == (s.staged_bytes, s.demand_bytes)
            &&& (t.demand_reads, t.duplicate_reads) == (s.demand_reads, s.duplicate_reads)
            &&& same_events(s, t) && same_elsewhere(s, t, layer)
            &&& (s.used(layer, bytes).hits, s.used(layer, bytes).late) == (s.hits, s.late)
            &&& s.used(layer, bytes).consumed_bytes == t.consumed_bytes
            &&& s.used(layer, bytes).per_layer == t.per_layer
        }),
{
}

/// An expert that has to be read counts as a read, as one too many where it was staged as well, and its
/// bytes in the total and in its layer.
pub proof fn law_a_read_counts_once(s: StatsView, layer: int, staged: bool, bytes: int)
    requires
        0 <= layer < s.per_layer.len(),
        0 <= bytes,
        s.demand_bytes + bytes <= u64::MAX,
        s.per_layer[layer].2 + bytes <= u64::MAX,
        s.per_layer[layer].3 < u64::MAX,
        s.demand_reads < u64::MAX,
        s.duplicate_reads < u64::MAX,
    ensures
        ({
            let t = s.demanded(layer, staged, bytes);
            let (was, now) = (s.per_layer[layer], t.per_layer[layer]);
            &&& t.demand_reads - s.demand_reads == 1
            &&& t.duplicate_reads - s.duplicate_reads == (if staged {
                1int
            } else {
                0
            })
            &&& t.demand_bytes - s.demand_bytes == bytes
            &&& now.2 - was.2 == bytes && now.3 - was.3 == 1
            &&& (now.0, now.1) == (was.0, was.1)
            &&& (t.staged_bytes, t.consumed_bytes) == (s.staged_bytes, s.consumed_bytes)
            &&& (t.hits, t.late) == (s.hits, s.late)
            &&& same_events(s, t) && same_elsewhere(s, t, layer)
        }),
{
}

/// A route counts as one, its experts by how many there were and how many were there, and as a full one
/// only where all of them were there.
pub proof fn law_a_route_counts_once(s: StatsView, there: int, wanted: int)
    requires
        0 <= there <= wanted,
        s.recall_hits + there <= u64::MAX,
        s.recall_total + wanted <= u64::MAX,
        s.route_layers < u64::MAX,
        s.full_route_layers < u64::MAX,
    ensures
        ({
            let t = s.routed(there, wanted);
            &&& t.recall_hits - s.recall_hits == there
            &&& t.recall_total - s.recall_total == wanted
            &&& t.route_layers - s.route_layers == 1
            &&& t.full_route_layers - s.full_route_layers == (if there == wanted && wanted != 0 {
                1int
            } else {
                0
            })
            &&& t.per_layer == s.per_layer
            &&& (t.staged_bytes, t.consumed_bytes, t.demand_bytes) == (
                s.staged_bytes,
                s.consumed_bytes,
                s.demand_bytes,
            )
            &&& (t.hits, t.late, t.demand_reads, t.duplicate_reads) == (
                s.hits,
                s.late,
                s.demand_reads,
                s.duplicate_reads,
            )
            &&& (t.stale_rejected, t.unplaced, t.misses) == (s.stale_rejected, s.unplaced, s.misses)
        }),
{
}

/// An expert that is there under another tag is counted as stale where it is looked up in vain, and one
/// that finds no place as not placed; nothing else changes.
pub proof fn law_what_is_counted_in_vain(a: ArenaView, layer: int, expert: u32, complete: Option<bool>)
    requires
        a.wf(),
        a.enabled,
        a.has(layer),
        a.stats.stale_rejected < u64::MAX,
        a.stats.unplaced < u64::MAX,
    ensures
        ({
            let b = a.looked_up(layer, expert, complete);
            let there = exists|i: int|
                0 <= i < a.candidates && (#[trigger] a.served(layer).stage[i]).expert == expert;
            &&& b.rows == a.rows && b.token_generation == a.token_generation
            &&& b.stats.stale_rejected - a.stats.stale_rejected == (if there && a.take(
                layer,
                expert,
                complete,
            ) == Some(StagedTake::Miss) {
                1int
            } else {
                0
            })
            &&& b.stats == (StatsView { stale_rejected: b.stats.stale_rejected, ..a.stats })
        }),
        a.stage_claim(layer, expert) is None ==> ({
            let b = a.stage_claimed(layer, expert);
            &&& b.rows == a.rows
            &&& b.stats == (StatsView { unplaced: (a.stats.unplaced + 1) as u64, ..a.stats })
        }),
        a.stage_claim(layer, expert) is Some ==> a.stage_claimed(layer, expert).stats == a.stats,
{
    let row = a.served(layer);
    assert(0 <= 2 * layer + a.served_parity() < a.rows.len());
    lemma_first(row.stage, expert, None);
}

/// Using an expert marks the slot that was found for it and no other.
pub proof fn law_using_an_expert_marks_its_slot(a: ArenaView, layer: int, expert: u32, r: int, i: int)
    requires
        a.wf(),
        a.has(layer),
        0 <= r < a.rows.len(),
        0 <= i < a.candidates,
    ensures
        ({
            let b = a.consumed(layer, expert);
            let (was, now) = (a.rows[r].stage[i], b.rows[r].stage[i]);
            let its = r == 2 * layer + a.served_parity() && a.served(layer).find(expert, a.consume_tag())
                == Some(i);
            &&& (now.expert, now.tag, now.event) == (was.expert, was.tag, was.event)
            &&& its ==> now.consumed
            &&& !its ==> now == was
            &&& b.stats == a.stats
        }),
{
    assert(0 <= 2 * layer + a.served_parity() < a.rows.len());
    lemma_first(a.served(layer).stage, expert, Some(a.consume_tag()));
}

/// An event belongs to the slot that an expert was staged into and to no other.
pub proof fn law_an_event_belongs_to_its_slot(
    a: ArenaView,
    layer: int,
    expert: u32,
    event: i64,
    r: int,
    i: int,
)
    requires
        a.wf(),
        a.has(layer),
        0 <= r < a.rows.len(),
        0 <= i < a.candidates,
    ensures
        ({
            let b = a.event_set(layer, expert, event);
            let (was, now) = (a.rows[r].stage[i], b.rows[r].stage[i]);
            let its = r == 2 * layer + a.fill_parity() && a.filled(layer).find(expert, a.stage_tag())
                == Some(i);
            &&& (now.expert, now.tag, now.consumed) == (was.expert, was.tag, was.consumed)
            &&& its ==> now.event == event
            &&& !its ==> now == was
            &&& b.stats == a.stats
        }),
{
    assert(0 <= 2 * layer + a.fill_parity() < a.rows.len());
    lemma_first(a.filled(layer).stage, expert, Some(a.stage_tag()));
}

/// A token uses one row of a layer while the other is filled for the next, and they change places with
/// every token.
pub proof fn law_the_rows_of_a_layer_take_turns(a: ArenaView, in_flight: Seq<i32>, layer: int)
    requires
        a.wf(),
        a.has(layer),
        a.token_generation < u64::MAX,
    ensures
        ({
            let b = a.begin_token(in_flight);
            &&& a.served_parity() + a.fill_parity() == 1
            &&& 0 <= a.served_parity() <= 1
            &&& b.served_parity() == a.fill_parity()
            &&& b.served(layer) == a.filled(layer)
            &&& b.token_generation == a.token_generation + 1
            &&& b.request_generation == a.request_generation
            &&& b.consume_tag() == a.stage_tag()
            &&& b.stats == a.stats
        }),
{
    let b = a.begin_token(in_flight);
    assert((a.token_generation + 1) % 2 == 1 - a.token_generation as int % 2);
    let r = 2 * layer + a.fill_parity();
    assert(0 <= r < a.rows.len());
    assert(r % 2 == a.fill_parity());
    assert(b.rows[r] == a.rows[r]);
}

/// Waited for is what the current token may use: the slots of the rows in use that hold an expert whose
/// load was begun.
pub proof fn law_what_is_waited_for(a: ArenaView, layer: int, i: int)
    requires
        a.wf(),
        a.has(layer),
        0 <= i < a.candidates,
    ensures
        a.served(layer).stage[i].expert != FREE && a.served(layer).stage[i].event > 0 ==> a.waiting(
            a.served(layer).slots[i],
        ),
        a.filled(layer).stage[i].event > 0 ==> a.loading(a.filled(layer).slots[i]),
        a.served(layer).stage[i].event > 0 ==> a.loading(a.served(layer).slots[i]),
{
    let (r, q) = (2 * layer + a.served_parity(), 2 * layer + a.fill_parity());
    assert(0 <= r < a.rows.len() && 0 <= q < a.rows.len());
    assert(r % 2 == a.served_parity());
    if a.served(layer).stage[i].event > 0 {
        assert(a.submitted(r, i, a.served(layer).slots[i]));
        if a.served(layer).stage[i].expert != FREE {
            assert(a.awaits(r, i, a.served(layer).slots[i]));
        }
    }
    if a.filled(layer).stage[i].event > 0 {
        assert(a.submitted(q, i, a.filled(layer).slots[i]));
    }
}

/// Nothing else is waited for.
pub proof fn law_nothing_else_is_waited_for(a: ArenaView, s: i32)
    requires
        a.wf(),
        a.waiting(s),
    ensures
        exists|layer: int, i: int|
            #![trigger a.served(layer).stage[i]]
            a.has(layer) && 0 <= i < a.candidates && a.served(layer).slots[i] == s && a.served(
                layer,
            ).stage[i].event > 0 && a.served(layer).stage[i].expert != FREE,
        a.loading(s),
{
    let (r, i) = choose|r: int, i: int| a.awaits(r, i, s);
    let layer = r / 2;
    assert(r == 2 * layer + a.served_parity());
    assert(a.has(layer));
    assert(a.served(layer).stage[i].event > 0);
    assert(a.submitted(r, i, s));
}

/// Where a layer is first counted all layers up to the number there are have counts, and what was counted
/// stays.
pub proof fn law_counts_stay_where_layers_are_added(
    rows: Seq<(u64, u64, u64, u64)>,
    layers: nat,
    i: int,
)
    requires
        0 <= i < rows.len() || 0 <= i < layers,
    ensures
        grown(rows, layers).len() >= layers && grown(rows, layers).len() >= rows.len(),
        i < rows.len() ==> grown(rows, layers)[i] == rows[i],
        i >= rows.len() ==> grown(rows, layers)[i] == (0u64, 0u64, 0u64, 0u64),
{
}

} // verus!
