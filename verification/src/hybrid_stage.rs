//! Staging of expert weights one token ahead of their use.
//!
//! Two rows of slots belong to every layer. While token `t` runs, predictions fill the row of one
//! parity; the row of the other parity serves token `t` what was staged during `t - 1`. Every slot
//! carries the request and the token that it was filled for, and is served to that token only.

use vstd::prelude::*;
use vstd::string::StringExecFns;

use crate::text::{decimal, push_decimal};

verus! {

/// The expert id of an unoccupied slot.
pub const FREE: u32 = 0xffff_ffff;

/// The request and the token that a slot was filled for.
#[derive(Clone, Copy, Debug, PartialEq, Eq, Structural)]
pub struct SlotTag {
    pub request_generation: u64,
    pub token_generation: u64,
}

/// What one slot holds: an expert, for whom, the load that brings it, and whether it was used.
#[derive(Clone, Copy, Debug, PartialEq, Eq, Structural)]
pub struct StageSlot {
    pub expert: u32,
    pub tag: SlotTag,
    pub event: i64,
    pub consumed: bool,
}

/// The answer to the question whether a staged expert can be used.
#[derive(Debug, Clone, Copy, PartialEq, Eq, Structural)]
pub enum StagedTake {
    /// The bytes are there.
    Hit { slot: i32 },
    /// The load was submitted and has not completed.
    Late { slot: i32, event: i64 },
    /// Nothing usable is staged.
    Miss,
}

/// Whether the load of a slot is complete: nothing was submitted without an event, and a slot that
/// the device does not know is complete.
pub open spec fn classify_spec(event: i64, complete: Option<bool>) -> Option<bool> {
    if event <= 0 {
        None
    } else {
        match complete {
            Some(c) => Some(c),
            None => Some(true),
        }
    }
}

/// Classifies a slot by its event and what the device says of it.
pub fn classify_staged(event: i64, complete: Option<bool>) -> (r: Option<bool>)
    ensures
        r == classify_spec(event, complete),
{
    if event <= 0 {
        return None;
    }
    Some(complete.unwrap_or(true))
}

/// An unoccupied slot that keeps its last tag.
pub open spec fn freed(e: StageSlot) -> StageSlot {
    StageSlot { expert: FREE, event: 0, consumed: false, tag: e.tag }
}

/// Whether a slot holds `expert`, under `tag` where one is asked for.
pub open spec fn slot_matches(e: StageSlot, expert: u32, tag: Option<SlotTag>) -> bool {
    e.expert == expert && (tag matches Some(t) ==> e.tag == t)
}

/// The first slot that holds `expert` (under `tag`).
pub open spec fn first_slot(stage: Seq<StageSlot>, expert: u32, tag: Option<SlotTag>) -> Option<int>
    decreases stage.len(),
{
    if stage.len() == 0 {
        None
    } else {
        match first_slot(stage.drop_last(), expert, tag) {
            Some(i) => Some(i),
            None => if slot_matches(stage.last(), expert, tag) {
                Some(stage.len() - 1)
            } else {
                None
            },
        }
    }
}

/// `first_slot` gives the least index that matches, and nothing only where none does.
pub proof fn lemma_first_slot(stage: Seq<StageSlot>, expert: u32, tag: Option<SlotTag>)
    ensures
        match first_slot(stage, expert, tag) {
            Some(i) => {
                &&& 0 <= i < stage.len()
                &&& slot_matches(stage[i], expert, tag)
                &&& forall|j: int| 0 <= j < i ==> !slot_matches(#[trigger] stage[j], expert, tag)
            },
            None => forall|j: int|
                0 <= j < stage.len() ==> !slot_matches(#[trigger] stage[j], expert, tag),
        },
    decreases stage.len(),
{
    if stage.len() > 0 {
        lemma_first_slot(stage.drop_last(), expert, tag);
        assert forall|j: int| 0 <= j < stage.len() - 1 implies stage.drop_last()[j] == #[trigger] stage[j] by {}
        if first_slot(stage.drop_last(), expert, tag) is None {
            assert forall|j: int| 0 <= j < stage.len() - 1 implies !slot_matches(
                #[trigger] stage[j],
                expert,
                tag,
            ) by {
                assert(stage.drop_last()[j] == stage[j]);
            }
        } else {
            let i = first_slot(stage.drop_last(), expert, tag)->0;
            assert forall|j: int| 0 <= j < i implies !slot_matches(
                #[trigger] stage[j],
                expert,
                tag,
            ) by {
                assert(stage.drop_last()[j] == stage[j]);
            }
        }
    }
}

/// Where two rows of slots agree on what matches, they agree on the first match.
proof fn lemma_first_slot_is(stage: Seq<StageSlot>, expert: u32, tag: Option<SlotTag>, i: int)
    requires
        0 <= i < stage.len(),
        slot_matches(stage[i], expert, tag),
        forall|j: int| 0 <= j < i ==> !slot_matches(#[trigger] stage[j], expert, tag),
    ensures
        first_slot(stage, expert, tag) == Some(i),
{
    lemma_first_slot(stage, expert, tag);
    let f = first_slot(stage, expert, tag);
    if f is None {
        assert(!slot_matches(stage[i], expert, tag));
    } else if f->0 < i {
        assert(!slot_matches(stage[f->0], expert, tag));
    } else if f->0 > i {
        assert(!slot_matches(stage[i], expert, tag));
    }
}

fn find_slot(stage: &Vec<StageSlot>, expert: u32, tag: Option<SlotTag>) -> (r: Option<usize>)
    ensures
        match r {
            Some(i) => first_slot(stage@, expert, tag) == Some(i as int) && i < stage.len(),
            None => first_slot(stage@, expert, tag) is None,
        },
{
    let mut i: usize = 0;
    while i < stage.len()
        invariant
            i <= stage.len(),
            forall|j: int| 0 <= j < i ==> !slot_matches(#[trigger] stage@[j], expert, tag),
        decreases stage.len() - i,
    {
        let e: StageSlot = stage[i];
        let same_tag: bool = match tag {
            Some(t) => e.tag == t,
            None => true,
        };
        if e.expert == expert && same_tag {
            proof {
                lemma_first_slot_is(stage@, expert, tag, i as int);
            }
            return Some(i);
        }
        i += 1;
    }
    proof {
        lemma_first_slot(stage@, expert, tag);
    }
    None
}

/// The row of slots of one layer and parity.
pub struct RowView {
    pub slots: Seq<i32>,
    pub bufs: Seq<u64>,
    pub stage: Seq<StageSlot>,
    pub stride: usize,
}

impl RowView {
    /// The slot that holds `expert` under `tag`.
    pub open spec fn find(self, expert: u32, tag: SlotTag) -> Option<int> {
        first_slot(self.stage, expert, Some(tag))
    }

    /// Whether `expert` is held under any tag.
    pub open spec fn holds(self, expert: u32) -> bool {
        first_slot(self.stage, expert, None) is Some
    }

    /// The slot that a claim gives: the one already held, else the first free one.
    pub open spec fn claim(self, expert: u32, tag: SlotTag) -> Option<int> {
        match self.find(expert, tag) {
            Some(i) => Some(i),
            None => first_slot(self.stage, FREE, None),
        }
    }

    /// The row with slot `i` given to `expert`, nothing submitted yet.
    pub open spec fn occupy(self, i: int, expert: u32, tag: SlotTag) -> RowView {
        RowView {
            stage: self.stage.update(i, StageSlot { expert, tag, event: 0, consumed: false }),
            ..self
        }
    }

    /// Whether the load into slot `i` is still in flight.
    pub open spec fn loading(self, i: int, in_flight: Seq<i32>) -> bool {
        self.stage[i].event > 0 && in_flight.contains(self.slots[i])
    }

    /// The row with every slot free but those whose load is in flight, which stay as they are.
    pub open spec fn release_all(self, in_flight: Seq<i32>) -> RowView {
        RowView {
            stage: Seq::new(
                self.stage.len(),
                |i: int|
                    if self.loading(i, in_flight) {
                        self.stage[i]
                    } else {
                        freed(self.stage[i])
                    },
            ),
            ..self
        }
    }

    /// The row with its free slots marked with `tag`.
    pub open spec fn tagged(self, tag: SlotTag) -> RowView {
        RowView {
            stage: self.stage.map_values(
                |e: StageSlot|
                    if e.expert == FREE {
                        StageSlot { tag, ..e }
                    } else {
                        e
                    },
            ),
            ..self
        }
    }

    /// Whether every slot is free.
    pub open spec fn empty(self) -> bool {
        forall|i: int| 0 <= i < self.stage.len() ==> (#[trigger] self.stage[i]).expert == FREE
    }

    /// Whether the free slots name no load and no use.
    pub open spec fn free_is_blank(self) -> bool {
        forall|i: int|
            0 <= i < self.stage.len() && (#[trigger] self.stage[i]).expert == FREE
                ==> self.stage[i].event == 0 && !self.stage[i].consumed
    }

    /// Whether no slot was filled for a request after the one numbered `request`.
    pub open spec fn dated(self, request: u64) -> bool {
        forall|i: int|
            0 <= i < self.stage.len() ==> (#[trigger] self.stage[i]).tag.request_generation
                <= request
    }

    /// Whether a sweep leaves slot `i` as it is: a free slot, or one whose load is in flight.
    pub open spec fn kept(self, i: int, in_flight: Seq<i32>) -> bool {
        self.stage[i].expert == FREE || self.loading(i, in_flight)
    }

    /// The row without the slots that a sweep frees.
    pub open spec fn sweep(self, in_flight: Seq<i32>) -> RowView {
        RowView {
            stage: Seq::new(
                self.stage.len(),
                |i: int|
                    if self.kept(i, in_flight) {
                        self.stage[i]
                    } else {
                        freed(self.stage[i])
                    },
            ),
            ..self
        }
    }

    /// No expert sits in two slots under one tag.
    pub open spec fn distinct(self) -> bool {
        forall|i: int, j: int|
            #![trigger self.stage[i], self.stage[j]]
            0 <= i < j < self.stage.len() && self.stage[i].expert != FREE && self.stage[i].expert
                == self.stage[j].expert ==> self.stage[i].tag != self.stage[j].tag
    }
}

/// The slots of one layer and parity, with the device slot and the buffer behind each.
pub struct StageLayer {
    pub slots: Vec<i32>,
    pub bufs: Vec<u64>,
    pub stage: Vec<StageSlot>,
    pub stride: usize,
}

impl View for StageLayer {
    type V = RowView;

    open spec fn view(&self) -> RowView {
        RowView { slots: self.slots@, bufs: self.bufs@, stage: self.stage@, stride: self.stride }
    }
}

impl StageLayer {
    /// Where an expert starts in its buffer: every slot has a buffer of its own.
    pub fn base_offset(&self) -> (r: usize)
        ensures
            r == 0,
    {
        0
    }

    /// The slot that holds `expert` under `tag`.
    pub fn find(&self, expert: u32, tag: SlotTag) -> (r: Option<usize>)
        ensures
            match r {
                Some(i) => self@.find(expert, tag) == Some(i as int) && i < self@.stage.len(),
                None => self@.find(expert, tag) is None,
            },
    {
        find_slot(&self.stage, expert, Some(tag))
    }

    /// The slot that `expert` gets under `tag`.
    pub fn claim(&self, expert: u32, tag: SlotTag) -> (r: Option<usize>)
        ensures
            match r {
                Some(i) => self@.claim(expert, tag) == Some(i as int) && i < self@.stage.len(),
                None => self@.claim(expert, tag) is None,
            },
    {
        match self.find(expert, tag) {
            Some(i) => Some(i),
            None => find_slot(&self.stage, FREE, None),
        }
    }

    /// Whether `expert` is held under any tag.
    pub fn holds(&self, expert: u32) -> (r: bool)
        ensures
            r == self@.holds(expert),
    {
        match find_slot(&self.stage, expert, None) {
            Some(_) => true,
            None => false,
        }
    }

    /// Frees every slot whose load is not in flight; `in_flight` lists the device slots whose load
    /// is. A slot that a load still writes to keeps its expert, its tag and its event: two loads
    /// never write to one device slot.
    pub fn release_all(&mut self, in_flight: &Vec<i32>)
        requires
            old(self).slots.len() == old(self).stage.len(),
        ensures
            final(self)@ == old(self)@.release_all(in_flight@),
            old(self)@.free_is_blank() ==> final(self)@ == old(self)@.sweep(in_flight@),
    {
        let mut i: usize = 0;
        while i < self.stage.len()
            invariant
                i <= self.stage.len(),
                self.slots.len() == self.stage.len(),
                self.stage.len() == old(self).stage.len(),
                self.slots == old(self).slots,
                self.bufs == old(self).bufs,
                self.stride == old(self).stride,
                forall|j: int|
                    0 <= j < i ==> self.stage[j] == old(self)@.release_all(in_flight@).stage[j],
                forall|j: int| i <= j < self.stage.len() ==> self.stage[j] == old(self).stage[j],
            decreases self.stage.len() - i,
        {
            let e: StageSlot = self.stage[i];
            if !(e.event > 0 && contains_slot(in_flight, self.slots[i])) {
                self.stage[i] = StageSlot { expert: FREE, event: 0, consumed: false, tag: e.tag };
            }
            i += 1;
        }
        assert(self@.stage =~= old(self)@.release_all(in_flight@).stage);
        assert(old(self)@.free_is_blank() ==> self@.stage =~= old(self)@.sweep(in_flight@).stage);
    }

    fn occupy(&mut self, i: usize, expert: u32, tag: SlotTag)
        requires
            i < old(self).stage.len(),
        ensures
            final(self)@ == old(self)@.occupy(i as int, expert, tag),
    {
        self.stage[i] = StageSlot { expert, tag, event: 0, consumed: false };
    }

    fn set_tags(&mut self, tag: SlotTag)
        ensures
            final(self)@ == old(self)@.tagged(tag),
    {
        let mut i: usize = 0;
        while i < self.stage.len()
            invariant
                i <= self.stage.len(),
                self.stage.len() == old(self).stage.len(),
                self.slots == old(self).slots,
                self.bufs == old(self).bufs,
                self.stride == old(self).stride,
                forall|j: int| 0 <= j < i ==> self.stage[j] == old(self)@.tagged(tag).stage[j],
                forall|j: int| i <= j < self.stage.len() ==> self.stage[j] == old(self).stage[j],
            decreases self.stage.len() - i,
        {
            let e: StageSlot = self.stage[i];
            if e.expert == FREE {
                self.stage[i].tag = tag;
            }
            i += 1;
        }
        assert(self@.stage =~= old(self)@.tagged(tag).stage);
    }

    fn sweep(&mut self, in_flight: &Vec<i32>)
        requires
            old(self).slots.len() == old(self).stage.len(),
        ensures
            final(self)@ == old(self)@.sweep(in_flight@),
    {
        let mut i: usize = 0;
        while i < self.stage.len()
            invariant
                i <= self.stage.len(),
                self.slots.len() == self.stage.len(),
                self.stage.len() == old(self).stage.len(),
                self.slots == old(self).slots,
                self.bufs == old(self).bufs,
                self.stride == old(self).stride,
                forall|j: int| 0 <= j < i ==> self.stage[j] == old(self)@.sweep(in_flight@).stage[j],
                forall|j: int| i <= j < self.stage.len() ==> self.stage[j] == old(self).stage[j],
            decreases self.stage.len() - i,
        {
            let e: StageSlot = self.stage[i];
            if e.expert != FREE && !(e.event > 0 && contains_slot(in_flight, self.slots[i])) {
                self.stage[i] = StageSlot { expert: FREE, event: 0, consumed: false, tag: e.tag };
            }
            i += 1;
        }
        assert(self@.stage =~= old(self)@.sweep(in_flight@).stage);
    }
}

fn contains_slot(list: &Vec<i32>, slot: i32) -> (r: bool)
    ensures
        r == list@.contains(slot),
{
    let mut i: usize = 0;
    while i < list.len()
        invariant
            i <= list.len(),
            forall|j: int| 0 <= j < i ==> list[j] != slot,
        decreases list.len() - i,
    {
        if list[i] == slot {
            assert(list@[i as int] == slot);
            return true;
        }
        i += 1;
    }
    false
}

/// Counters of one arena, as a value.
pub struct StatsView {
    pub hits: u64,
    pub late: u64,
    pub misses: u64,
    pub demand_reads: u64,
    pub staged_bytes: u64,
    pub consumed_bytes: u64,
    pub demand_bytes: u64,
    pub duplicate_reads: u64,
    pub stale_rejected: u64,
    pub unplaced: u64,
    pub full_route_layers: u64,
    pub route_layers: u64,
    pub recall_hits: u64,
    pub recall_total: u64,
    pub per_layer: Seq<(u64, u64, u64, u64)>,
}

/// A sum that stops at the largest number.
pub open spec fn sat(x: int) -> u64 {
    if x > u64::MAX {
        u64::MAX
    } else {
        x as u64
    }
}

impl StatsView {
    /// The row of `layer` (staged, consumed and demanded bytes, and demand reads) replaced.
    pub open spec fn with_layer(self, layer: int, row: (u64, u64, u64, u64)) -> StatsView {
        StatsView { per_layer: self.per_layer.update(layer, row), ..self }
    }

    /// One entry was held for another generation.
    pub open spec fn stale(self) -> StatsView {
        StatsView { stale_rejected: (self.stale_rejected + 1) as u64, ..self }
    }

    /// One prediction found no slot.
    pub open spec fn not_placed(self) -> StatsView {
        StatsView { unplaced: (self.unplaced + 1) as u64, ..self }
    }

    /// A staging read of `bytes` was submitted.
    pub open spec fn submitted(self, layer: int, bytes: int) -> StatsView {
        let row = self.per_layer[layer];
        StatsView { staged_bytes: sat(self.staged_bytes + bytes), ..self }.with_layer(
            layer,
            (sat(row.0 + bytes), row.1, row.2, row.3),
        )
    }

    /// `bytes` that were staged have been used.
    pub open spec fn used(self, layer: int, bytes: int) -> StatsView {
        let row = self.per_layer[layer];
        StatsView { consumed_bytes: sat(self.consumed_bytes + bytes), ..self }.with_layer(
            layer,
            (row.0, sat(row.1 + bytes), row.2, row.3),
        )
    }

    /// A staged expert was used, complete or after a wait.
    pub open spec fn hit(self, layer: int, bytes: int, late: bool) -> StatsView {
        if late {
            StatsView { late: (self.late + 1) as u64, ..self }.used(layer, bytes)
        } else {
            StatsView { hits: (self.hits + 1) as u64, ..self }.used(layer, bytes)
        }
    }

    /// An expert was read on demand, although it was staged or because it was not.
    pub open spec fn demanded(self, layer: int, staged: bool, bytes: int) -> StatsView {
        let row = self.per_layer[layer];
        StatsView {
            demand_reads: (self.demand_reads + 1) as u64,
            duplicate_reads: if staged {
                (self.duplicate_reads + 1) as u64
            } else {
                self.duplicate_reads
            },
            demand_bytes: sat(self.demand_bytes + bytes),
            ..self
        }.with_layer(layer, (row.0, row.1, sat(row.2 + bytes), (row.3 + 1) as u64))
    }

    /// One route ran, `staged_hits` of its `route_width` experts from the arena.
    pub open spec fn routed(self, staged_hits: int, route_width: int) -> StatsView {
        StatsView {
            recall_hits: (self.recall_hits + staged_hits) as u64,
            recall_total: (self.recall_total + route_width) as u64,
            route_layers: (self.route_layers + 1) as u64,
            full_route_layers: if route_width > 0 && staged_hits == route_width {
                (self.full_route_layers + 1) as u64
            } else {
                self.full_route_layers
            },
            ..self
        }
    }
}

/// Counters of one arena. A row of `per_layer` holds the bytes staged, the bytes of those used, the
/// bytes read on demand and the number of demand reads of one layer.
#[derive(Clone, Debug)]
pub struct StageStats {
    pub hits: u64,
    pub late: u64,
    pub misses: u64,
    pub demand_reads: u64,
    pub staged_bytes: u64,
    pub consumed_bytes: u64,
    pub demand_bytes: u64,
    pub duplicate_reads: u64,
    pub stale_rejected: u64,
    pub unplaced: u64,
    pub full_route_layers: u64,
    pub route_layers: u64,
    pub recall_hits: u64,
    pub recall_total: u64,
    pub per_layer: Vec<(u64, u64, u64, u64)>,
}

impl View for StageStats {
    type V = StatsView;

    open spec fn view(&self) -> StatsView {
        StatsView {
            hits: self.hits,
            late: self.late,
            misses: self.misses,
            demand_reads: self.demand_reads,
            staged_bytes: self.staged_bytes,
            consumed_bytes: self.consumed_bytes,
            demand_bytes: self.demand_bytes,
            duplicate_reads: self.duplicate_reads,
            stale_rejected: self.stale_rejected,
            unplaced: self.unplaced,
            full_route_layers: self.full_route_layers,
            route_layers: self.route_layers,
            recall_hits: self.recall_hits,
            recall_total: self.recall_total,
            per_layer: self.per_layer@,
        }
    }
}

/// Counters at zero for `layers` layers.
pub open spec fn zero_stats(layers: nat) -> StatsView {
    StatsView {
        hits: 0,
        late: 0,
        misses: 0,
        demand_reads: 0,
        staged_bytes: 0,
        consumed_bytes: 0,
        demand_bytes: 0,
        duplicate_reads: 0,
        stale_rejected: 0,
        unplaced: 0,
        full_route_layers: 0,
        route_layers: 0,
        recall_hits: 0,
        recall_total: 0,
        per_layer: Seq::new(layers, |i: int| (0u64, 0u64, 0u64, 0u64)),
    }
}

/// A table with rows of zeros added until it has `layers` rows.
pub open spec fn grown(rows: Seq<(u64, u64, u64, u64)>, layers: nat) -> Seq<
    (u64, u64, u64, u64),
> {
    if rows.len() < layers {
        Seq::new(
            layers,
            |i: int|
                if i < rows.len() {
                    rows[i]
                } else {
                    (0u64, 0u64, 0u64, 0u64)
                },
        )
    } else {
        rows
    }
}

fn grow_rows(rows: &mut Vec<(u64, u64, u64, u64)>, layers: usize)
    ensures
        final(rows)@ == grown(old(rows)@, layers as nat),
{
    while rows.len() < layers
        invariant
            old(rows).len() <= rows.len(),
            rows.len() <= layers || rows.len() == old(rows).len(),
            rows@ == grown(old(rows)@, rows.len() as nat),
        decreases layers - rows.len(),
    {
        let ghost before = rows@;
        rows.push((0u64, 0u64, 0u64, 0u64));
        assert(rows@ =~= grown(old(rows)@, rows.len() as nat));
    }
}

impl StageStats {
    /// Counters at zero.
    pub fn new(layers: usize) -> (s: StageStats)
        ensures
            s@ == zero_stats(layers as nat),
    {
        let mut per_layer: Vec<(u64, u64, u64, u64)> = Vec::new();
        grow_rows(&mut per_layer, layers);
        assert(per_layer@ =~= zero_stats(layers as nat).per_layer);
        StageStats {
            hits: 0,
            late: 0,
            misses: 0,
            demand_reads: 0,
            staged_bytes: 0,
            consumed_bytes: 0,
            demand_bytes: 0,
            duplicate_reads: 0,
            stale_rejected: 0,
            unplaced: 0,
            full_route_layers: 0,
            route_layers: 0,
            recall_hits: 0,
            recall_total: 0,
            per_layer,
        }
    }

    /// The row of `layer`, after the table has grown to `layers` rows.
    pub fn entry(&mut self, layers: usize, layer: usize) -> (row: &mut (u64, u64, u64, u64))
        requires
            layer < layers || layer < old(self)@.per_layer.len(),
        ensures
            *row == (if layer < old(self)@.per_layer.len() {
                old(self)@.per_layer[layer as int]
            } else {
                (0u64, 0u64, 0u64, 0u64)
            }),
            final(self)@ == (StatsView {
                per_layer: grown(old(self)@.per_layer, layers as nat).update(
                    layer as int,
                    *final(row),
                ),
                ..old(self)@
            }),
    {
        grow_rows(&mut self.per_layer, layers);
        &mut self.per_layer[layer]
    }

    /// The bytes staged and the bytes of those used, as a fraction: `0 / 1` where nothing was
    /// staged.
    pub fn efficiency(&self) -> (r: (u64, u64))
        ensures
            r == (if self.staged_bytes == 0 {
                (0u64, 1u64)
            } else {
                (self.consumed_bytes, self.staged_bytes)
            }),
    {
        if self.stats_denominator() == 0 {
            return (0, 1);
        }
        (self.consumed_bytes, self.stats_denominator())
    }

    /// What `efficiency` divides by.
    pub fn stats_denominator(&self) -> (r: u64)
        ensures
            r == self.staged_bytes,
    {
        self.staged_bytes
    }

    /// The staged bytes that were never used.
    pub fn wasted_bytes(&self) -> (r: u64)
        ensures
            r == (if self.staged_bytes >= self.consumed_bytes {
                self.staged_bytes - self.consumed_bytes
            } else {
                0
            }),
    {
        self.staged_bytes.saturating_sub(self.consumed_bytes)
    }

    /// The number of routes that ran from the arena alone.
    pub fn full_route_layer_count(&self) -> (r: u64)
        ensures
            r == self.full_route_layers,
    {
        self.full_route_layers
    }

    /// The routes that ran from the arena alone among all, as a fraction: `0 / 1` where none ran.
    pub fn full_route_coverage(&self) -> (r: (u64, u64))
        ensures
            r == (if self.route_layers == 0 {
                (0u64, 1u64)
            } else {
                (self.full_route_layers, self.route_layers)
            }),
    {
        if self.route_layers == 0 {
            return (0, 1);
        }
        (self.full_route_layers, self.route_layers)
    }

    /// The experts found staged among all that ran, as a fraction: `0 / 1` where none ran.
    pub fn candidate_recall(&self) -> (r: (u64, u64))
        ensures
            r == (if self.recall_total == 0 {
                (0u64, 1u64)
            } else {
                (self.recall_hits, self.recall_total)
            }),
    {
        if self.recall_total == 0 {
            return (0, 1);
        }
        (self.recall_hits, self.recall_total)
    }
}

/// The arena as a value: its rows, row `2 * layer + parity` for each layer and parity.
pub struct ArenaView {
    pub rows: Seq<RowView>,
    pub layer_count: int,
    pub stride: usize,
    pub candidates: int,
    pub request_generation: u64,
    pub token_generation: u64,
    pub enabled: bool,
    pub stats: StatsView,
}

impl ArenaView {
    /// Every layer has two rows as wide as the arena, no row holds an expert twice, and no slot was
    /// filled for a request that has not begun.
    pub open spec fn wf(self) -> bool {
        &&& 0 <= self.layer_count
        &&& self.rows.len() == 2 * self.layer_count
        &&& self.stats.per_layer.len() == self.layer_count
        &&& forall|r: int|
            0 <= r < self.rows.len() ==> {
                &&& (#[trigger] self.rows[r]).stage.len() == self.candidates
                &&& self.rows[r].slots.len() == self.candidates
                &&& self.rows[r].stride == self.stride
                &&& self.rows[r].distinct()
                &&& self.rows[r].dated(self.request_generation)
            }
    }

    /// The parity that serves the current token.
    pub open spec fn served_parity(self) -> int {
        self.token_generation as int % 2
    }

    /// The parity that is filled for the next token.
    pub open spec fn fill_parity(self) -> int {
        1 - self.token_generation as int % 2
    }

    /// The row of `layer` that serves the current token.
    pub open spec fn served(self, layer: int) -> RowView {
        self.rows[2 * layer + self.served_parity()]
    }

    /// The row of `layer` that is filled for the next token.
    pub open spec fn filled(self, layer: int) -> RowView {
        self.rows[2 * layer + self.fill_parity()]
    }

    /// The tag that the current token takes.
    pub open spec fn consume_tag(self) -> SlotTag {
        SlotTag {
            request_generation: self.request_generation,
            token_generation: self.token_generation,
        }
    }

    /// The tag that predictions for the next token get.
    pub open spec fn stage_tag(self) -> SlotTag {
        SlotTag {
            request_generation: self.request_generation,
            token_generation: sat(self.token_generation + 1),
        }
    }

    /// Whether `layer` has rows.
    pub open spec fn has(self, layer: int) -> bool {
        0 <= layer < self.layer_count
    }

    /// One row replaced.
    pub open spec fn with_row(self, r: int, row: RowView) -> ArenaView {
        ArenaView { rows: self.rows.update(r, row), ..self }
    }

    /// The counters replaced.
    pub open spec fn with_stats(self, stats: StatsView) -> ArenaView {
        ArenaView { stats, ..self }
    }

    /// Whether slot `i` of row `r` names a load into slot number `s`.
    pub open spec fn submitted(self, r: int, i: int, s: i32) -> bool {
        &&& 0 <= r < self.rows.len()
        &&& 0 <= i < self.rows[r].stage.len()
        &&& self.rows[r].stage[i].event > 0
        &&& self.rows[r].slots[i] == s
    }

    /// Whether slot `i` of row `r` serves the current token from a submitted load into slot
    /// number `s`.
    pub open spec fn awaits(self, r: int, i: int, s: i32) -> bool {
        &&& self.submitted(r, i, s)
        &&& r % 2 == self.served_parity()
        &&& self.rows[r].stage[i].expert != FREE
    }

    /// Whether some slot serves the current token from a submitted load into slot number `s`.
    pub open spec fn waiting(self, s: i32) -> bool {
        exists|r: int, i: int| self.awaits(r, i, s)
    }

    spec fn names(self, both: bool, r: int, i: int, s: i32) -> bool {
        if both {
            self.submitted(r, i, s)
        } else {
            self.awaits(r, i, s)
        }
    }

    spec fn named(self, both: bool, s: i32) -> bool {
        exists|r: int, i: int| self.names(both, r, i, s)
    }

    /// Whether some slot of either parity names a load into slot number `s`.
    pub open spec fn loading(self, s: i32) -> bool {
        exists|r: int, i: int| self.submitted(r, i, s)
    }

    /// What the current token finds of `expert`.
    pub open spec fn take(self, layer: int, expert: u32, complete: Option<bool>) -> Option<
        StagedTake,
    > {
        if !self.enabled || !self.has(layer) {
            None
        } else {
            match self.served(layer).find(expert, self.consume_tag()) {
                Some(i) => {
                    let slot = self.served(layer).slots[i];
                    let event = self.served(layer).stage[i].event;
                    match classify_spec(event, complete) {
                        Some(true) => Some(StagedTake::Hit { slot }),
                        Some(false) => Some(StagedTake::Late { slot, event }),
                        None => Some(StagedTake::Miss),
                    }
                },
                None => Some(StagedTake::Miss),
            }
        }
    }

    /// The arena after the current token asked for `expert`: an expert that is held and cannot be
    /// served is counted.
    pub open spec fn looked_up(self, layer: int, expert: u32, complete: Option<bool>) -> ArenaView {
        if self.take(layer, expert, complete) == Some(StagedTake::Miss) && self.served(
            layer,
        ).holds(expert) {
            self.with_stats(self.stats.stale())
        } else {
            self
        }
    }

    /// The arena after a new request began: of what was staged before, only the slots that a load
    /// is still writing to are left, under the tags that they had.
    pub open spec fn begin_request(self, in_flight: Seq<i32>) -> ArenaView {
        let next = ArenaView {
            request_generation: sat(self.request_generation + 1),
            token_generation: 0,
            ..self
        };
        ArenaView {
            rows: self.rows.map_values(
                |row: RowView| row.release_all(in_flight).tagged(next.consume_tag()),
            ),
            ..next
        }
    }

    /// The arena after the next token began: what the last token used is freed, unless a load is
    /// still writing there.
    pub open spec fn begin_token(self, in_flight: Seq<i32>) -> ArenaView {
        let next = ArenaView { token_generation: sat(self.token_generation + 1), ..self };
        ArenaView {
            rows: Seq::new(
                self.rows.len(),
                |r: int|
                    if r % 2 == next.fill_parity() {
                        self.rows[r].sweep(in_flight)
                    } else {
                        self.rows[r]
                    },
            ),
            ..next
        }
    }

    /// The slot index that a prediction of `expert` gets, and whether it is newly taken.
    pub open spec fn stage_place(self, layer: int, expert: u32) -> Option<int> {
        if !self.enabled || !self.has(layer) {
            None
        } else {
            self.filled(layer).claim(expert, self.stage_tag())
        }
    }

    /// What a claim for the next token returns.
    pub open spec fn stage_claim(self, layer: int, expert: u32) -> Option<(i32, usize, bool)> {
        match self.stage_place(layer, expert) {
            Some(i) => Some(
                (
                    self.filled(layer).slots[i],
                    0usize,
                    self.filled(layer).find(expert, self.stage_tag()) is None,
                ),
            ),
            None => None,
        }
    }

    /// The arena after a claim for the next token.
    pub open spec fn stage_claimed(self, layer: int, expert: u32) -> ArenaView {
        if !self.enabled || !self.has(layer) {
            self
        } else {
            match self.stage_place(layer, expert) {
                Some(i) => if self.filled(layer).find(expert, self.stage_tag()) is Some {
                    self
                } else {
                    self.with_row(
                        2 * layer + self.fill_parity(),
                        self.filled(layer).occupy(i, expert, self.stage_tag()),
                    )
                },
                None => self.with_stats(self.stats.not_placed()),
            }
        }
    }

    /// The slot index that a demand read of `expert` gets.
    pub open spec fn demand_place(self, layer: int, expert: u32) -> Option<int> {
        if !self.enabled || !self.has(layer) {
            None
        } else {
            self.served(layer).claim(expert, self.consume_tag())
        }
    }

    /// What a claim for the current token returns.
    pub open spec fn demand_claim(self, layer: int, expert: u32) -> Option<(i32, usize)> {
        match self.demand_place(layer, expert) {
            Some(i) => Some((self.served(layer).slots[i], 0usize)),
            None => None,
        }
    }

    /// The arena after a claim for the current token.
    pub open spec fn demand_claimed(self, layer: int, expert: u32) -> ArenaView {
        match self.demand_place(layer, expert) {
            Some(i) => self.with_row(
                2 * layer + self.served_parity(),
                self.served(layer).occupy(i, expert, self.consume_tag()),
            ),
            None => self,
        }
    }

    /// The arena after the load of a prediction was submitted.
    pub open spec fn event_set(self, layer: int, expert: u32, event: i64) -> ArenaView {
        if !self.has(layer) {
            self
        } else {
            match self.filled(layer).find(expert, self.stage_tag()) {
                Some(i) => {
                    let row = self.filled(layer);
                    self.with_row(
                        2 * layer + self.fill_parity(),
                        RowView {
                            stage: row.stage.update(i, StageSlot { event, ..row.stage[i] }),
                            ..row
                        },
                    )
                },
                None => self,
            }
        }
    }

    /// Whether the current token holds `expert`.
    pub open spec fn can_consume(self, layer: int, expert: u32) -> bool {
        self.has(layer) && self.served(layer).find(expert, self.consume_tag()) is Some
    }

    /// The arena after the current token used `expert`.
    pub open spec fn consumed(self, layer: int, expert: u32) -> ArenaView {
        if self.can_consume(layer, expert) {
            let row = self.served(layer);
            let i = row.find(expert, self.consume_tag())->0;
            self.with_row(
                2 * layer + self.served_parity(),
                RowView {
                    stage: row.stage.update(i, StageSlot { consumed: true, ..row.stage[i] }),
                    ..row
                },
            )
        } else {
            self
        }
    }
}

/// One block that the device gave: a slot number (negative where it gave none) and its buffer.
#[derive(Clone, Copy, Debug, PartialEq, Eq, Structural)]
pub struct StageBlock {
    pub slot: i32,
    pub buf: u64,
}

/// Why an arena could not be made.
#[derive(Debug)]
pub enum StageArenaError {
    /// No candidates, or slots of no size.
    EmptyGeometry,
    /// The device gave no slot; `discard` lists those it gave before, to be handed back.
    SlotAllocation { layer: usize, parity: usize, discard: Vec<i32> },
}

impl StageArenaError {
    /// The text of the error.
    pub open spec fn text(self) -> Seq<char> {
        match self {
            StageArenaError::EmptyGeometry =>
                "staging arena needs a nonzero candidate count and stride"@,
            StageArenaError::SlotAllocation { layer, parity, .. } =>
                "staging alias slot allocation failed on layer "@ + decimal(layer as nat)
                    + " parity "@ + decimal(parity as nat),
        }
    }

    /// The error in words.
    pub fn message(&self) -> (s: String)
        ensures
            s@ == self.text(),
    {
        match self {
            StageArenaError::EmptyGeometry => String::from_str(
                "staging arena needs a nonzero candidate count and stride",
            ),
            StageArenaError::SlotAllocation { layer, parity, .. } => {
                let mut s: String = String::from_str(
                    "staging alias slot allocation failed on layer ",
                );
                push_decimal(&mut s, *layer as u64);
                s.append(" parity ");
                push_decimal(&mut s, *parity as u64);
                s
            },
        }
    }
}

/// An unoccupied slot of a new arena.
pub open spec fn blank_slot() -> StageSlot {
    StageSlot {
        expert: FREE,
        tag: SlotTag { request_generation: 0, token_generation: 0 },
        event: 0,
        consumed: false,
    }
}

fn blank_stage(candidates: usize) -> (v: Vec<StageSlot>)
    ensures
        v@ == Seq::new(candidates as nat, |i: int| blank_slot()),
{
    let mut v: Vec<StageSlot> = Vec::new();
    while v.len() < candidates
        invariant
            v.len() <= candidates,
            forall|i: int| 0 <= i < v.len() ==> v[i] == blank_slot(),
        decreases candidates - v.len(),
    {
        v.push(
            StageSlot {
                expert: FREE,
                tag: SlotTag { request_generation: 0, token_generation: 0 },
                event: 0,
                consumed: false,
            },
        );
    }
    assert(v@ =~= Seq::new(candidates as nat, |i: int| blank_slot()));
    v
}

/// An arena in which nothing is staged, with the given slots and buffers in its rows.
pub open spec fn fresh_arena(
    layers: nat,
    candidates: nat,
    stride: usize,
    slots: spec_fn(int) -> Seq<i32>,
    bufs: spec_fn(int) -> Seq<u64>,
) -> ArenaView {
    ArenaView {
        rows: Seq::new(
            2 * layers,
            |r: int|
                RowView {
                    slots: slots(r),
                    bufs: bufs(r),
                    stage: Seq::new(candidates, |i: int| blank_slot()),
                    stride,
                },
        ),
        layer_count: layers as int,
        stride,
        candidates: candidates as int,
        request_generation: 0,
        token_generation: 0,
        enabled: true,
        stats: zero_stats(layers),
    }
}

/// Experts staged one token ahead, in two rows of slots per layer.
pub struct StageArena {
    pub rows: Vec<StageLayer>,
    pub layer_count: usize,
    pub stride: usize,
    pub candidates: usize,
    pub request_generation: u64,
    pub token_generation: u64,
    pub enabled: bool,
    pub stats: StageStats,
}

impl View for StageArena {
    type V = ArenaView;

    open spec fn view(&self) -> ArenaView {
        ArenaView {
            rows: self.rows@.map_values(|row: StageLayer| row@),
            layer_count: self.layer_count as int,
            stride: self.stride,
            candidates: self.candidates as int,
            request_generation: self.request_generation,
            token_generation: self.token_generation,
            enabled: self.enabled,
            stats: self.stats@,
        }
    }
}

impl StageArena {
    /// The index of the row of `layer` and `parity`.
    pub fn row_index(&self, layer: usize, parity: usize) -> (r: Option<usize>)
        requires
            self@.wf(),
            parity < 2,
        ensures
            r == (if layer < self.layer_count {
                Some((2 * layer + parity) as usize)
            } else {
                None
            }),
            r matches Some(i) ==> i == 2 * layer + parity && i < self.rows.len(),
    {
        if layer >= self.layer_count {
            return None;
        }
        assert(self@.rows.len() == self.rows.len());
        Some(layer * 2 + parity)
    }

    /// An arena of `layers` layers on the blocks that the device gave, in the order of layer,
    /// parity and candidate.
    pub fn new(layers: usize, candidates: usize, stride: usize, blocks: &Vec<StageBlock>) -> (r:
        Result<StageArena, StageArenaError>)
        requires
            candidates > 0 && stride > 0 ==> {
                &&& layers * 2 * candidates <= usize::MAX
                &&& blocks.len() >= layers * 2 * candidates || exists|k: int|
                    0 <= k < blocks.len() && blocks[k].slot < 0
            },
        ensures
            match r {
                Err(StageArenaError::EmptyGeometry) => candidates == 0 || stride == 0,
                Err(StageArenaError::SlotAllocation { layer, parity, discard }) => {
                    &&& candidates > 0 && stride > 0
                    &&& layer < layers && parity < 2
                    &&& exists|k: int|
                        {
                            &&& #[trigger] discard@.len() == k
                            &&& (2 * layer + parity) * candidates <= k < (2 * layer + parity + 1)
                                * candidates
                            &&& k < blocks.len() && blocks[k].slot < 0
                            &&& forall|j: int|
                                0 <= j < k ==> blocks[j].slot >= 0 && discard[j] == blocks[j].slot
                        }
                },
                Ok(arena) => {
                    &&& candidates > 0 && stride > 0
                    &&& forall|j: int|
                        0 <= j < layers * 2 * candidates ==> (#[trigger] blocks[j]).slot >= 0
                    &&& arena@.wf()
                    &&& arena@ == fresh_arena(
                        layers as nat,
                        candidates as nat,
                        stride,
                        |r: int|
                            Seq::new(
                                candidates as nat,
                                |i: int| blocks[r * candidates + i].slot,
                            ),
                        |r: int|
                            Seq::new(candidates as nat, |i: int| blocks[r * candidates + i].buf),
                    )
                },
            },
    {
        if candidates == 0 || stride == 0 {
            return Err(StageArenaError::EmptyGeometry);
        }
        let mut rows: Vec<StageLayer> = Vec::new();
        let mut discard: Vec<i32> = Vec::new();
        assert(layers * 2 <= layers * 2 * candidates) by (nonlinear_arith)
            requires
                candidates > 0,
        ;
        let total: usize = layers * 2;
        let mut r: usize = 0;
        let ghost slots_of = |r: int|
            Seq::new(candidates as nat, |i: int| blocks[r * candidates + i].slot);
        let ghost bufs_of = |r: int|
            Seq::new(candidates as nat, |i: int| blocks[r * candidates + i].buf);
        let ghost want = fresh_arena(
            layers as nat,
            candidates as nat,
            stride,
            slots_of,
            bufs_of,
        );
        while r < total
            invariant
                candidates > 0,
                stride > 0,
                r <= total,
                total == layers * 2,
                total * candidates <= usize::MAX,
                blocks.len() >= total * candidates || exists|k: int|
                    0 <= k < blocks.len() && blocks[k].slot < 0,
                rows.len() == r,
                discard.len() == r * candidates,
                discard.len() <= blocks.len(),
                forall|j: int|
                    0 <= j < r * candidates ==> (#[trigger] blocks[j]).slot >= 0 && discard[j]
                        == blocks[j].slot,
                forall|q: int|
                    0 <= q < r ==> {
                        &&& (#[trigger] rows[q])@.slots == slots_of(q)
                        &&& rows[q]@.bufs == bufs_of(q)
                        &&& rows[q]@.stage == Seq::new(candidates as nat, |i: int| blank_slot())
                        &&& rows[q]@.stride == stride
                    },
                slots_of == (|r: int|
                    Seq::new(candidates as nat, |i: int| blocks[r * candidates + i].slot)),
                bufs_of == (|r: int|
                    Seq::new(candidates as nat, |i: int| blocks[r * candidates + i].buf)),
            decreases total - r,
        {
            let mut slots: Vec<i32> = Vec::new();
            let mut bufs: Vec<u64> = Vec::new();
            let mut c: usize = 0;
            proof {
                lemma_block_room(r as int, total as int, candidates as int);
            }
            let base: usize = r * candidates;
            while c < candidates
                invariant
                    c <= candidates,
                    r < total,
                    total == layers * 2,
                    base == r * candidates,
                    base + candidates == (r + 1) * candidates,
                    base + candidates <= total * candidates,
                    total * candidates <= usize::MAX,
                    candidates > 0,
                    stride > 0,
                    blocks.len() >= total * candidates || exists|k: int|
                        0 <= k < blocks.len() && blocks[k].slot < 0,
                    slots.len() == c,
                    bufs.len() == c,
                    discard.len() == base + c,
                    discard.len() <= blocks.len(),
                    forall|j: int|
                        0 <= j < base + c ==> (#[trigger] blocks[j]).slot >= 0 && discard[j]
                            == blocks[j].slot,
                    forall|i: int|
                        0 <= i < c ==> slots[i] == blocks[base + i].slot && bufs[i] == blocks[base
                            + i].buf,
                decreases candidates - c,
            {
                assert(base + c < blocks.len());
                let block: StageBlock = blocks[base + c];
                if block.slot < 0 {
                    let layer: usize = r / 2;
                    let parity: usize = r % 2;
                    assert(2 * layer + parity == r);
                    assert(discard@.len() == base + c);
                    return Err(StageArenaError::SlotAllocation { layer, parity, discard });
                }
                slots.push(block.slot);
                bufs.push(block.buf);
                discard.push(block.slot);
                c += 1;
            }
            assert(slots@ =~= slots_of(r as int));
            assert(bufs@ =~= bufs_of(r as int));
            rows.push(StageLayer { slots, bufs, stage: blank_stage(candidates), stride });
            r += 1;
        }
        let arena = StageArena {
            rows,
            layer_count: layers,
            stride,
            candidates,
            request_generation: 0,
            token_generation: 0,
            enabled: true,
            stats: StageStats::new(layers),
        };
        assert(arena@.rows =~= want.rows);
        Ok(arena)
    }

    /// An arena without a device behind it: no buffers, and every slot number is -1.
    pub fn for_test(layers: usize, candidates: usize, stride: usize) -> (arena: StageArena)
        requires
            layers * 2 <= usize::MAX,
        ensures
            arena@.wf(),
            arena@ == fresh_arena(
                layers as nat,
                candidates as nat,
                stride,
                |r: int| Seq::new(candidates as nat, |i: int| -1i32),
                |r: int| Seq::empty(),
            ),
    {
        let mut rows: Vec<StageLayer> = Vec::new();
        let total: usize = layers * 2;
        while rows.len() < total
            invariant
                rows.len() <= total,
                forall|q: int|
                    0 <= q < rows.len() ==> {
                        &&& (#[trigger] rows[q])@.slots == Seq::new(
                            candidates as nat,
                            |i: int| -1i32,
                        )
                        &&& rows[q]@.bufs == Seq::<u64>::empty()
                        &&& rows[q]@.stage == Seq::new(candidates as nat, |i: int| blank_slot())
                        &&& rows[q]@.stride == stride
                    },
            decreases total - rows.len(),
        {
            let slots: Vec<i32> = vec![-1i32; candidates];
            assert(slots@ =~= Seq::new(candidates as nat, |i: int| -1i32));
            rows.push(
                StageLayer { slots, bufs: Vec::new(), stage: blank_stage(candidates), stride },
            );
        }
        let arena = StageArena {
            rows,
            layer_count: layers,
            stride,
            candidates,
            request_generation: 0,
            token_generation: 0,
            enabled: true,
            stats: StageStats::new(layers),
        };
        assert(arena@.rows =~= fresh_arena(
            layers as nat,
            candidates as nat,
            stride,
            |r: int| Seq::new(candidates as nat, |i: int| -1i32),
            |r: int| Seq::empty(),
        ).rows);
        arena
    }

    /// The number of slots in a row.
    pub fn candidates(&self) -> (r: usize)
        ensures
            r == self.candidates,
    {
        self.candidates
    }

    /// The size of a slot in bytes.
    pub fn stride(&self) -> (r: usize)
        ensures
            r == self.stride,
    {
        self.stride
    }

    /// The number of tokens begun in this request.
    pub fn token_generation(&self) -> (r: u64)
        ensures
            r == self.token_generation,
    {
        self.token_generation
    }

    /// The number of requests begun.
    pub fn request_generation(&self) -> (r: u64)
        ensures
            r == self.request_generation,
    {
        self.request_generation
    }

    /// The size of all slots, both parities counted, or the largest number where that is more.
    pub fn bytes(&self) -> (r: usize)
        ensures
            r == sat_mul(sat_mul(self.rows.len(), self.candidates), self.stride),
    {
        saturating_mul(saturating_mul(self.rows.len(), self.candidates), self.stride)
    }

    /// Begins a request: everything staged is dropped, but for slots that a load is still writing
    /// to. Those stay taken and are served to nobody.
    pub fn begin_request(&mut self, in_flight: &Vec<i32>)
        requires
            old(self)@.wf(),
        ensures
            final(self)@ == old(self)@.begin_request(in_flight@),
            final(self)@.wf(),
    {
        self.request_generation = self.request_generation.saturating_add(1);
        self.token_generation = 0;
        let tag = SlotTag { request_generation: self.request_generation, token_generation: 0 };
        let mut i: usize = 0;
        while i < self.rows.len()
            invariant
                i <= self.rows.len(),
                self.rows.len() == old(self).rows.len(),
                old(self)@.wf(),
                forall|r: int|
                    0 <= r < i ==> (#[trigger] self.rows[r])@ == old(self).rows[r]@.release_all(
                        in_flight@,
                    ).tagged(tag),
                forall|r: int| i <= r < self.rows.len() ==> self.rows[r] == old(self).rows[r],
                self.request_generation == sat(old(self).request_generation + 1),
                self.token_generation == 0,
                self.layer_count == old(self).layer_count,
                self.stride == old(self).stride,
                self.candidates == old(self).candidates,
                self.enabled == old(self).enabled,
                self.stats == old(self).stats,
            decreases self.rows.len() - i,
        {
            assert(old(self)@.rows[i as int] == self.rows[i as int]@);
            self.rows[i].release_all(in_flight);
            self.rows[i].set_tags(tag);
            i += 1;
        }
        proof {
            assert(self@.rows =~= old(self)@.begin_request(in_flight@).rows);
            lemma_begin_request_wf(old(self)@, in_flight@);
        }
    }

    /// The slots of which `begin_token` asks whether a load is still in flight: those that the new
    /// token frees otherwise.
    pub fn stale_slots(&self) -> (out: Vec<i32>)
        requires
            self@.wf(),
        ensures
            forall|s: i32| #[trigger] out@.contains(s) <==> self@.waiting(s),
    {
        let out: Vec<i32> = self.submitted_slots(false);
        assert forall|s: i32| #[trigger] out@.contains(s) <==> self@.waiting(s) by {
            assert(self@.named(false, s) <==> self@.waiting(s)) by {
                if self@.waiting(s) {
                    let (r, i) = choose|r: int, i: int| self@.awaits(r, i, s);
                    assert(self@.names(false, r, i, s));
                }
                if self@.named(false, s) {
                    let (r, i) = choose|r: int, i: int| self@.names(false, r, i, s);
                    assert(self@.awaits(r, i, s));
                }
            }
        }
        out
    }

    /// The slots of which `begin_request` asks whether a load is still in flight: every slot of
    /// either parity that names a load.
    pub fn loading_slots(&self) -> (out: Vec<i32>)
        requires
            self@.wf(),
        ensures
            forall|s: i32| #[trigger] out@.contains(s) <==> self@.loading(s),
    {
        let out: Vec<i32> = self.submitted_slots(true);
        assert forall|s: i32| #[trigger] out@.contains(s) <==> self@.loading(s) by {
            assert(self@.named(true, s) <==> self@.loading(s)) by {
                if self@.loading(s) {
                    let (r, i) = choose|r: int, i: int| self@.submitted(r, i, s);
                    assert(self@.names(true, r, i, s));
                }
                if self@.named(true, s) {
                    let (r, i) = choose|r: int, i: int| self@.names(true, r, i, s);
                    assert(self@.submitted(r, i, s));
                }
            }
        }
        out
    }

    fn submitted_slots(&self, both: bool) -> (out: Vec<i32>)
        requires
            self@.wf(),
        ensures
            forall|s: i32| #[trigger] out@.contains(s) <==> self@.named(both, s),
    {
        let mut out: Vec<i32> = Vec::new();
        let parity: usize = (self.token_generation % 2) as usize;
        let mut r: usize = 0;
        let ghost view = self@;
        while r < self.rows.len()
            invariant
                r <= self.rows.len(),
                parity == view.served_parity(),
                view == self@,
                view.wf(),
                forall|k: int| 0 <= k < out.len() ==> view.named(both, #[trigger] out[k]),
                forall|q: int, i: int, s: i32|
                    q < r && #[trigger] view.names(both, q, i, s) ==> out@.contains(s),
            decreases self.rows.len() - r,
        {
            let row = &self.rows[r];
            let mut i: usize = 0;
            assert(row@ == view.rows[r as int]);
            while i < row.stage.len()
                invariant
                    i <= row.stage.len(),
                    r < view.rows.len(),
                    parity == view.served_parity(),
                    row@ == view.rows[r as int],
                    row.slots.len() == row.stage.len(),
                    forall|k: int| 0 <= k < out.len() ==> view.named(both, #[trigger] out[k]),
                    forall|q: int, j: int, s: i32|
                        (q < r || (q == r && j < i)) && #[trigger] view.names(both, q, j, s)
                            ==> out@.contains(s),
                decreases row.stage.len() - i,
            {
                let e: StageSlot = row.stage[i];
                let slot: i32 = row.slots[i];
                if e.event > 0 && (both || (r % 2 == parity && e.expert != FREE)) {
                    let ghost prev = out@;
                    out.push(slot);
                    proof {
                        assert(view.names(both, r as int, i as int, slot));
                        assert(view.named(both, slot));
                        assert forall|q: int, j: int, s: i32|
                            (q < r || (q == r && j < i + 1)) && #[trigger] view.names(
                                both,
                                q,
                                j,
                                s,
                            ) implies out@.contains(s) by {
                            if q == r && j == i {
                                assert(out@[out.len() - 1] == s);
                            } else {
                                let k = choose|k: int| 0 <= k < prev.len() && prev[k] == s;
                                assert(out@[k] == s);
                            }
                        }
                    }
                }
                i += 1;
            }
            r += 1;
        }
        out
    }

    /// Begins a token: what was staged for it is served now, and the other parity is free to be
    /// filled, but for slots that a load is still writing to.
    pub fn begin_token(&mut self, in_flight: &Vec<i32>)
        requires
            old(self)@.wf(),
        ensures
            final(self)@ == old(self)@.begin_token(in_flight@),
            final(self)@.wf(),
    {
        self.token_generation = self.token_generation.saturating_add(1);
        let stale_parity: usize = 1 - (self.token_generation % 2) as usize;
        let mut i: usize = 0;
        let ghost want = old(self)@.begin_token(in_flight@);
        while i < self.rows.len()
            invariant
                i <= self.rows.len(),
                stale_parity == 1 - want.token_generation as int % 2,
                want == old(self)@.begin_token(in_flight@),
                self.rows.len() == old(self).rows.len(),
                old(self)@.wf(),
                forall|r: int|
                    0 <= r < i ==> (#[trigger] self.rows[r])@ == want.rows[r],
                forall|r: int| i <= r < self.rows.len() ==> self.rows[r] == old(self).rows[r],
                self.request_generation == old(self).request_generation,
                self.token_generation == want.token_generation,
                self.layer_count == old(self).layer_count,
                self.stride == old(self).stride,
                self.candidates == old(self).candidates,
                self.enabled == old(self).enabled,
                self.stats == old(self).stats,
            decreases self.rows.len() - i,
        {
            assert(old(self)@.rows[i as int] == self.rows[i as int]@);
            if i % 2 == stale_parity {
                self.rows[i].sweep(in_flight);
            }
            i += 1;
        }
        proof {
            assert(self@.rows =~= want.rows);
            lemma_begin_token_wf(old(self)@, in_flight@);
        }
    }

    /// The tag of the current token.
    pub fn consume_tag(&self) -> (t: SlotTag)
        ensures
            t == self@.consume_tag(),
    {
        SlotTag {
            request_generation: self.request_generation,
            token_generation: self.token_generation,
        }
    }

    /// The tag of the next token.
    pub fn stage_tag(&self) -> (t: SlotTag)
        ensures
            t == self@.stage_tag(),
    {
        SlotTag {
            request_generation: self.request_generation,
            token_generation: self.token_generation.saturating_add(1),
        }
    }

    /// The device slot whose load decides whether a staged expert is served, where there is one.
    pub fn probe_slot(&self, layer: usize, expert: u32) -> (r: Option<i32>)
        requires
            self@.wf(),
        ensures
            r == (if self.enabled && layer < self.layer_count && self@.served(layer as int).find(
                expert,
                self@.consume_tag(),
            ) is Some {
                Some(
                    self@.served(layer as int).slots[self@.served(layer as int).find(
                        expert,
                        self@.consume_tag(),
                    )->0],
                )
            } else {
                None
            }),
    {
        if !self.enabled {
            return None;
        }
        match self.row_index(layer, (self.token_generation % 2) as usize) {
            None => None,
            Some(index) => {
                assert(self@.rows[index as int] == self.rows[index as int]@);
                let row = &self.rows[index];
                match row.find(expert, self.consume_tag()) {
                    Some(i) => Some(row.slots[i]),
                    None => None,
                }
            },
        }
    }

    /// What the current token finds of `expert`, given what the device says of `probe_slot`.
    pub fn lookup(&mut self, layer: usize, expert: u32, complete: Option<bool>) -> (r: Option<
        StagedTake,
    >)
        requires
            old(self)@.wf(),
            old(self)@.stats.stale_rejected < u64::MAX,
        ensures
            r == old(self)@.take(layer as int, expert, complete),
            final(self)@ == old(self)@.looked_up(layer as int, expert, complete),
            final(self)@.wf(),
    {
        if !self.enabled {
            return None;
        }
        let tag = self.consume_tag();
        let index: usize = match self.row_index(layer, (self.token_generation % 2) as usize) {
            None => {
                return None;
            },
            Some(index) => index,
        };
        assert(self@.rows[index as int] == self.rows[index as int]@);
        let found: Option<usize> = self.rows[index].find(expert, tag);
        let take: StagedTake = match found {
            Some(i) => {
                let e: StageSlot = self.rows[index].stage[i];
                let slot: i32 = self.rows[index].slots[i];
                proof {
                    lemma_first_slot(self@.rows[index as int].stage, expert, Some(tag));
                    lemma_first_slot(self@.rows[index as int].stage, expert, None);
                }
                match classify_staged(e.event, complete) {
                    Some(true) => StagedTake::Hit { slot },
                    Some(false) => StagedTake::Late { slot, event: e.event },
                    None => StagedTake::Miss,
                }
            },
            None => StagedTake::Miss,
        };
        if take == StagedTake::Miss && self.rows[index].holds(expert) {
            self.stats.stale_rejected = self.stats.stale_rejected + 1;
        }
        Some(take)
    }

    /// A slot for `expert` to be read into now.
    pub fn claim_demand(&mut self, layer: usize, expert: u32) -> (r: Option<(i32, usize)>)
        requires
            old(self)@.wf(),
        ensures
            r == old(self)@.demand_claim(layer as int, expert),
            final(self)@ == old(self)@.demand_claimed(layer as int, expert),
            final(self)@.wf(),
    {
        if !self.enabled {
            return None;
        }
        let tag = self.consume_tag();
        let index: usize = match self.row_index(layer, (self.token_generation % 2) as usize) {
            None => {
                return None;
            },
            Some(index) => index,
        };
        assert(self@.rows[index as int] == self.rows[index as int]@);
        match self.rows[index].claim(expert, tag) {
            None => None,
            Some(i) => {
                let off: usize = self.rows[index].base_offset();
                let slot: i32 = self.rows[index].slots[i];
                self.rows[index].occupy(i, expert, tag);
                proof {
                    assert(self@.rows =~= old(self)@.demand_claimed(layer as int, expert).rows);
                    lemma_claimed_distinct(old(self)@.rows[index as int], expert, tag);
                }
                Some((slot, off))
            },
        }
    }

    /// Notes the load that was submitted for a prediction.
    pub fn set_event(&mut self, layer: usize, expert: u32, event: i64)
        requires
            old(self)@.wf(),
        ensures
            final(self)@ == old(self)@.event_set(layer as int, expert, event),
            final(self)@.wf(),
    {
        let tag = self.stage_tag();
        let index: usize = match self.row_index(layer, 1 - (self.token_generation % 2) as usize) {
            None => {
                return;
            },
            Some(index) => index,
        };
        assert(self@.rows[index as int] == self.rows[index as int]@);
        if let Some(i) = self.rows[index].find(expert, tag) {
            self.rows[index].stage[i].event = event;
            assert(self@.rows =~= old(self)@.event_set(layer as int, expert, event).rows);
        }
    }

    /// Marks a staged expert as used by the current token.
    pub fn consume(&mut self, layer: usize, expert: u32) -> (r: bool)
        requires
            old(self)@.wf(),
        ensures
            r == old(self)@.can_consume(layer as int, expert),
            final(self)@ == old(self)@.consumed(layer as int, expert),
            final(self)@.wf(),
    {
        let tag = self.consume_tag();
        let index: usize = match self.row_index(layer, (self.token_generation % 2) as usize) {
            None => {
                return false;
            },
            Some(index) => index,
        };
        assert(self@.rows[index as int] == self.rows[index as int]@);
        match self.rows[index].find(expert, tag) {
            Some(i) => {
                self.rows[index].stage[i].consumed = true;
                assert(self@.rows =~= old(self)@.consumed(layer as int, expert).rows);
                true
            },
            None => false,
        }
    }

    /// A slot for `expert` to be staged into for the next token, and whether it is newly taken.
    pub fn claim_stage(&mut self, layer: usize, expert: u32) -> (r: Option<(i32, usize, bool)>)
        requires
            old(self)@.wf(),
            old(self)@.stats.unplaced < u64::MAX,
        ensures
            r == old(self)@.stage_claim(layer as int, expert),
            final(self)@ == old(self)@.stage_claimed(layer as int, expert),
            final(self)@.wf(),
    {
        if !self.enabled {
            return None;
        }
        let tag = self.stage_tag();
        let index: usize = match self.row_index(layer, 1 - (self.token_generation % 2) as usize) {
            None => {
                return None;
            },
            Some(index) => index,
        };
        assert(self@.rows[index as int] == self.rows[index as int]@);
        if let Some(i) = self.rows[index].find(expert, tag) {
            let off: usize = self.rows[index].base_offset();
            return Some((self.rows[index].slots[i], off, false));
        }
        match self.rows[index].claim(expert, tag) {
            None => {
                self.stats.unplaced = self.stats.unplaced + 1;
                None
            },
            Some(i) => {
                let off: usize = self.rows[index].base_offset();
                let slot: i32 = self.rows[index].slots[i];
                self.rows[index].occupy(i, expert, tag);
                proof {
                    assert(self@.rows =~= old(self)@.stage_claimed(layer as int, expert).rows);
                    lemma_claimed_distinct(old(self)@.rows[index as int], expert, tag);
                }
                Some((slot, off, true))
            },
        }
    }

    /// The buffer behind a device slot of `layer`: that of the first row and slot with its number.
    pub fn buf_for(&self, layer: usize, slot: i32) -> (r: Option<u64>)
        requires
            self@.wf(),
        ensures
            r == (if layer >= self.layer_count {
                None
            } else {
                match slot_index(self@.rows[2 * layer as int].slots, slot) {
                    Some(i) => buf_at(self@.rows[2 * layer as int].bufs, i),
                    None => match slot_index(self@.rows[2 * layer + 1].slots, slot) {
                        Some(i) => buf_at(self@.rows[2 * layer + 1].bufs, i),
                        None => None,
                    },
                }
            }),
    {
        let mut parity: usize = 0;
        while parity < 2
            invariant
                parity <= 2,
                self@.wf(),
                parity > 0 ==> layer < self.layer_count && slot_index(
                    self@.rows[2 * layer as int].slots,
                    slot,
                ) is None,
                parity > 1 ==> slot_index(self@.rows[2 * layer + 1].slots, slot) is None,
            decreases 2 - parity,
        {
            let index: usize = match self.row_index(layer, parity) {
                None => {
                    return None;
                },
                Some(index) => index,
            };
            assert(self@.rows[index as int] == self.rows[index as int]@);
            let row = &self.rows[index];
            if let Some(i) = find_number(&row.slots, slot) {
                return if i < row.bufs.len() {
                    Some(row.bufs[i])
                } else {
                    None
                };
            }
            parity += 1;
        }
        None
    }

    /// The size of what a slot holds.
    pub fn block_bytes(&self) -> (r: usize)
        ensures
            r == self.stride,
    {
        self.stride
    }

    /// Counts a staging read.
    pub fn record_submit(&mut self, layer: usize, bytes: usize)
        requires
            old(self)@.wf(),
            layer < old(self).layer_count,
        ensures
            final(self)@ == old(self)@.with_stats(
                old(self)@.stats.submitted(layer as int, bytes as int),
            ),
            final(self)@.wf(),
    {
        self.stats.staged_bytes = self.stats.staged_bytes.saturating_add(bytes as u64);
        let layers: usize = self.layer_count;
        let entry = self.stats.entry(layers, layer);
        entry.0 = entry.0.saturating_add(bytes as u64);
    }

    /// Counts staged bytes that were used.
    pub fn record_consume(&mut self, layer: usize, bytes: usize)
        requires
            old(self)@.wf(),
            layer < old(self).layer_count,
        ensures
            final(self)@ == old(self)@.with_stats(
                old(self)@.stats.used(layer as int, bytes as int),
            ),
            final(self)@.wf(),
    {
        self.stats.consumed_bytes = self.stats.consumed_bytes.saturating_add(bytes as u64);
        let layers: usize = self.layer_count;
        let entry = self.stats.entry(layers, layer);
        entry.1 = entry.1.saturating_add(bytes as u64);
    }

    /// Counts the use of a staged expert.
    pub fn record_hit(&mut self, layer: usize, bytes: usize, late: bool)
        requires
            old(self)@.wf(),
            layer < old(self).layer_count,
            old(self)@.stats.late < u64::MAX,
            old(self)@.stats.hits < u64::MAX,
        ensures
            final(self)@ == old(self)@.with_stats(
                old(self)@.stats.hit(layer as int, bytes as int, late),
            ),
            final(self)@.wf(),
    {
        if late {
            self.stats.late = self.stats.late + 1;
        } else {
            self.stats.hits = self.stats.hits + 1;
        }
        self.record_consume(layer, bytes);
    }

    /// Counts a read on demand.
    pub fn record_demand(&mut self, layer: usize, staged: bool, bytes: usize)
        requires
            old(self)@.wf(),
            layer < old(self).layer_count,
            old(self)@.stats.demand_reads < u64::MAX,
            old(self)@.stats.duplicate_reads < u64::MAX,
            old(self)@.stats.per_layer[layer as int].3 < u64::MAX,
        ensures
            final(self)@ == old(self)@.with_stats(
                old(self)@.stats.demanded(layer as int, staged, bytes as int),
            ),
            final(self)@.wf(),
    {
        self.stats.demand_reads = self.stats.demand_reads + 1;
        if staged {
            self.stats.duplicate_reads = self.stats.duplicate_reads + 1;
        }
        self.stats.demand_bytes = self.stats.demand_bytes.saturating_add(bytes as u64);
        let layers: usize = self.layer_count;
        let entry = self.stats.entry(layers, layer);
        entry.2 = entry.2.saturating_add(bytes as u64);
        entry.3 = entry.3 + 1;
    }

    /// Counts one route.
    pub fn record_route(&mut self, staged_hits: usize, route_width: usize)
        requires
            old(self)@.stats.recall_hits + staged_hits <= u64::MAX,
            old(self)@.stats.recall_total + route_width <= u64::MAX,
            old(self)@.stats.route_layers < u64::MAX,
            old(self)@.stats.full_route_layers < u64::MAX,
        ensures
            final(self)@ == old(self)@.with_stats(
                old(self)@.stats.routed(staged_hits as int, route_width as int),
            ),
            old(self)@.wf() ==> final(self)@.wf(),
    {
        self.stats.recall_hits = self.stats.recall_hits + staged_hits as u64;
        self.stats.recall_total = self.stats.recall_total + route_width as u64;
        self.stats.route_layers = self.stats.route_layers + 1;
        if route_width > 0 && staged_hits == route_width {
            self.stats.full_route_layers = self.stats.full_route_layers + 1;
        }
    }

    /// Switches the arena on, where it has slots, or off.
    pub fn set_enabled(&mut self, enabled: bool)
        ensures
            final(self)@ == (ArenaView {
                enabled: enabled && old(self).candidates > 0,
                ..old(self)@
            }),
            old(self)@.wf() ==> final(self)@.wf(),
    {
        self.enabled = enabled && self.candidates > 0;
    }

    /// Whether the arena is on.
    pub fn is_enabled(&self) -> (r: bool)
        ensures
            r == self.enabled,
    {
        self.enabled
    }
}

/// A product that stops at the largest number.
pub open spec fn sat_mul(a: usize, b: usize) -> usize {
    if a * b > usize::MAX {
        usize::MAX
    } else {
        (a * b) as usize
    }
}

fn saturating_mul(a: usize, b: usize) -> (r: usize)
    ensures
        r == sat_mul(a, b),
{
    match a.checked_mul(b) {
        Some(p) => p,
        None => usize::MAX,
    }
}

/// The first place of a slot number in a list.
pub open spec fn slot_index(slots: Seq<i32>, slot: i32) -> Option<int>
    decreases slots.len(),
{
    if slots.len() == 0 {
        None
    } else {
        match slot_index(slots.drop_last(), slot) {
            Some(i) => Some(i),
            None => if slots.last() == slot {
                Some(slots.len() - 1)
            } else {
                None
            },
        }
    }
}

/// The buffer of slot `i`, where the row has buffers.
pub open spec fn buf_at(bufs: Seq<u64>, i: int) -> Option<u64> {
    if 0 <= i < bufs.len() {
        Some(bufs[i])
    } else {
        None
    }
}

fn find_number(slots: &Vec<i32>, slot: i32) -> (r: Option<usize>)
    ensures
        match r {
            Some(i) => slot_index(slots@, slot) == Some(i as int) && i < slots.len(),
            None => slot_index(slots@, slot) is None,
        },
{
    let mut i: usize = 0;
    while i < slots.len()
        invariant
            i <= slots.len(),
            slot_index(slots@.take(i as int), slot) is None,
        decreases slots.len() - i,
    {
        assert(slots@.take(i + 1).drop_last() =~= slots@.take(i as int));
        if slots[i] == slot {
            proof {
                lemma_slot_index_prefix(slots@, slot, i + 1);
            }
            return Some(i);
        }
        i += 1;
    }
    assert(slots@.take(i as int) =~= slots@);
    None
}

proof fn lemma_slot_index_prefix(slots: Seq<i32>, slot: i32, n: int)
    requires
        0 <= n <= slots.len(),
        slot_index(slots.take(n), slot) is Some,
    ensures
        slot_index(slots, slot) == slot_index(slots.take(n), slot),
    decreases slots.len(),
{
    if n < slots.len() {
        assert(slots.drop_last().take(n) =~= slots.take(n));
        lemma_slot_index_prefix(slots.drop_last(), slot, n);
    } else {
        assert(slots.take(n) =~= slots);
    }
}

proof fn lemma_block_room(r: int, total: int, candidates: int)
    requires
        0 <= r < total,
        0 < candidates,
    ensures
        r * candidates + candidates == (r + 1) * candidates,
        (r + 1) * candidates <= total * candidates,
        0 <= r * candidates,
{
    assert(r * candidates + candidates == (r + 1) * candidates) by (nonlinear_arith);
    assert((r + 1) * candidates <= total * candidates) by (nonlinear_arith)
        requires
            r + 1 <= total,
            0 < candidates,
    ;
    assert(0 <= r * candidates) by (nonlinear_arith)
        requires
            0 <= r,
            0 < candidates,
    ;
}

pub(crate) proof fn lemma_claimed_distinct(row: RowView, expert: u32, tag: SlotTag)
    requires
        row.distinct(),
        row.claim(expert, tag) is Some,
    ensures
        row.occupy(row.claim(expert, tag)->0, expert, tag).distinct(),
{
    lemma_first_slot(row.stage, expert, Some(tag));
    lemma_first_slot(row.stage, FREE, None);
    let c = row.claim(expert, tag)->0;
    let new = row.occupy(c, expert, tag);
    assert forall|i: int, j: int|
        #![trigger new.stage[i], new.stage[j]]
        0 <= i < j < new.stage.len() && new.stage[i].expert != FREE && new.stage[i].expert
            == new.stage[j].expert implies new.stage[i].tag != new.stage[j].tag by {
        let ei = row.stage[i];
        let ej = row.stage[j];
        if i == c {
            assert(!slot_matches(ej, expert, Some(tag)) || row.find(expert, tag) is Some);
        } else if j == c {
            assert(!slot_matches(ei, expert, Some(tag)) || row.find(expert, tag) is Some);
        }
    }
}

pub(crate) proof fn lemma_begin_request_wf(a: ArenaView, in_flight: Seq<i32>)
    requires
        a.wf(),
    ensures
        a.begin_request(in_flight).wf(),
{
    let b = a.begin_request(in_flight);
    assert forall|r: int| 0 <= r < b.rows.len() implies {
        &&& (#[trigger] b.rows[r]).distinct()
        &&& b.rows[r].dated(b.request_generation)
    } by {
        let row = a.rows[r];
        assert(row.distinct() && row.dated(a.request_generation));
        let new = b.rows[r];
        assert forall|i: int, j: int|
            #![trigger new.stage[i], new.stage[j]]
            0 <= i < j < new.stage.len() && new.stage[i].expert != FREE && new.stage[i].expert
                == new.stage[j].expert implies new.stage[i].tag != new.stage[j].tag by {
            assert(row.stage[i] == new.stage[i] && row.stage[j] == new.stage[j]);
        }
        assert forall|i: int| 0 <= i < new.stage.len() implies (
        #[trigger] new.stage[i]).tag.request_generation <= b.request_generation by {
            assert(row.stage[i].tag.request_generation <= a.request_generation);
        }
    }
}

pub(crate) proof fn lemma_begin_token_wf(a: ArenaView, in_flight: Seq<i32>)
    requires
        a.wf(),
    ensures
        a.begin_token(in_flight).wf(),
{
    let b = a.begin_token(in_flight);
    assert forall|r: int| 0 <= r < b.rows.len() implies (#[trigger] b.rows[r]).distinct() by {
        let row = a.rows[r];
        assert(row.distinct());
        let new = b.rows[r];
        assert forall|i: int, j: int|
            #![trigger new.stage[i], new.stage[j]]
            0 <= i < j < new.stage.len() && new.stage[i].expert != FREE && new.stage[i].expert
                == new.stage[j].expert implies new.stage[i].tag != new.stage[j].tag by {
            assert(row.stage[i] == new.stage[i] && row.stage[j] == new.stage[j]);
        }
    }
}

/// An expert staged during one token is there for the next: with its load submitted, the next
/// token finds it in the slot that the claim gave, complete or late as the device says.
pub proof fn law_staged_is_served_next(
    a: ArenaView,
    layer: int,
    expert: u32,
    event: i64,
    in_flight: Seq<i32>,
    complete: Option<bool>,
)
    requires
        a.wf(),
        a.token_generation < u64::MAX,
        event > 0,
        a.stage_claim(layer, expert) is Some,
    ensures
        ({
            let slot = (a.stage_claim(layer, expert)->0).0;
            let next = a.stage_claimed(layer, expert).event_set(layer, expert, event).begin_token(
                in_flight,
            );
            next.take(layer, expert, complete) == Some(
                if complete == Some(false) {
                    StagedTake::Late { slot, event }
                } else {
                    StagedTake::Hit { slot }
                },
            )
        }),
{
    let tag = a.stage_tag();
    let b = a.stage_claimed(layer, expert);
    let row = a.filled(layer);
    let p = 2 * layer + a.fill_parity();
    let i = a.stage_place(layer, expert)->0;
    lemma_first_slot(row.stage, expert, Some(tag));
    lemma_first_slot(row.stage, FREE, None);
    let brow = b.filled(layer);
    assert(b.stage_tag() == tag);
    if row.find(expert, tag) is None {
        assert forall|j: int| 0 <= j < i implies !slot_matches(
            #[trigger] brow.stage[j],
            expert,
            Some(tag),
        ) by {
            assert(brow.stage[j] == row.stage[j]);
        }
    }
    lemma_first_slot_is(brow.stage, expert, Some(tag), i);
    let c = b.event_set(layer, expert, event);
    let crow = c.filled(layer);
    assert forall|j: int| 0 <= j < i implies !slot_matches(
        #[trigger] crow.stage[j],
        expert,
        Some(tag),
    ) by {
        assert(crow.stage[j] == brow.stage[j]);
        lemma_first_slot(brow.stage, expert, Some(tag));
    }
    lemma_first_slot_is(crow.stage, expert, Some(tag), i);
    let d = c.begin_token(in_flight);
    assert(d.consume_tag() == tag);
    assert(d.served(layer) == crow);
}

/// A prediction is never visible to the token that makes it: claiming a slot for the next token
/// and submitting its load change nothing of what the current token finds, anywhere.
pub proof fn law_prediction_is_invisible_now(
    a: ArenaView,
    layer: int,
    expert: u32,
    event: i64,
    at: int,
    wanted: u32,
    complete: Option<bool>,
)
    requires
        a.wf(),
    ensures
        a.stage_claimed(layer, expert).take(at, wanted, complete) == a.take(at, wanted, complete),
        a.stage_claimed(layer, expert).event_set(layer, expert, event).take(at, wanted, complete)
            == a.take(at, wanted, complete),
{
    let b = a.stage_claimed(layer, expert);
    let c = b.event_set(layer, expert, event);
    if a.has(at) {
        assert(b.served(at) == a.served(at));
        assert(c.served(at) == b.served(at));
    }
}

/// A new request finds nothing of an earlier one: a slot is free, or it is one that a load still
/// writes to, with its expert, its tag and its event as they were, and that tag is neither that of
/// the new request's first token nor that of any token that it can begin.
pub proof fn law_new_request_rejects_all(
    a: ArenaView,
    in_flight: Seq<i32>,
    layer: int,
    expert: u32,
    complete: Option<bool>,
)
    requires
        a.wf(),
        a.enabled,
        a.has(layer),
        a.request_generation < u64::MAX,
        expert != FREE,
    ensures
        ({
            let b = a.begin_request(in_flight);
            &&& b.take(layer, expert, complete) == Some(StagedTake::Miss)
            &&& forall|r: int, i: int|
                #![trigger b.rows[r].stage[i]]
                0 <= r < a.rows.len() && 0 <= i < a.candidates ==> {
                    let was = a.rows[r].stage[i];
                    let now = b.rows[r].stage[i];
                    &&& now.expert != FREE ==> now == was && a.rows[r].loading(i, in_flight)
                        && now.tag.request_generation < b.request_generation
                    &&& now.expert == FREE ==> now.tag == b.consume_tag()
                    &&& !a.rows[r].loading(i, in_flight) ==> now == (StageSlot {
                        expert: FREE,
                        event: 0,
                        consumed: false,
                        tag: b.consume_tag(),
                    })
                }
        }),
{
    let b = a.begin_request(in_flight);
    let q = 2 * layer + b.served_parity();
    lemma_first_slot(b.served(layer).stage, expert, Some(b.consume_tag()));
    assert forall|r: int, i: int|
        #![trigger b.rows[r].stage[i]]
        0 <= r < a.rows.len() && 0 <= i < a.candidates implies {
        let was = a.rows[r].stage[i];
        let now = b.rows[r].stage[i];
        &&& now.expert != FREE ==> now == was && a.rows[r].loading(i, in_flight)
            && now.tag.request_generation < b.request_generation
        &&& now.expert == FREE ==> now.tag == b.consume_tag()
        &&& !a.rows[r].loading(i, in_flight) ==> now == (StageSlot {
            expert: FREE,
            event: 0,
            consumed: false,
            tag: b.consume_tag(),
        })
    } by {
        assert(a.rows[r].dated(a.request_generation));
        assert(a.rows[r].stage[i].tag.request_generation <= a.request_generation);
    }
    assert(b.served(layer) == b.rows[q]);
    match b.served(layer).find(expert, b.consume_tag()) {
        Some(i) => {
            assert(b.rows[q].stage[i].expert == expert);
        },
        None => {},
    }
}

/// A load in flight keeps its slot: neither a new request nor a new token frees, retags or gives
/// away a slot whose load is still writing.
pub proof fn law_load_in_flight_keeps_its_slot(a: ArenaView, in_flight: Seq<i32>, r: int, i: int)
    requires
        a.wf(),
        0 <= r < a.rows.len(),
        0 <= i < a.candidates,
        a.rows[r].stage[i].expert != FREE,
        a.rows[r].loading(i, in_flight),
    ensures
        a.begin_request(in_flight).rows[r].stage[i] == a.rows[r].stage[i],
        a.begin_token(in_flight).rows[r].stage[i] == a.rows[r].stage[i],
{
}

/// Claiming an expert for the next token a second time gives the same slot, is not new, and
/// changes nothing.
pub proof fn law_claim_is_idempotent(a: ArenaView, layer: int, expert: u32)
    requires
        a.wf(),
        a.stage_claim(layer, expert) is Some,
    ensures
        ({
            let b = a.stage_claimed(layer, expert);
            &&& b.stage_claim(layer, expert) == Some(
                ((a.stage_claim(layer, expert)->0).0, 0usize, false),
            )
            &&& b.stage_claimed(layer, expert) == b
        }),
{
    let tag = a.stage_tag();
    let b = a.stage_claimed(layer, expert);
    let row = a.filled(layer);
    let i = a.stage_place(layer, expert)->0;
    lemma_first_slot(row.stage, expert, Some(tag));
    lemma_first_slot(row.stage, FREE, None);
    let brow = b.filled(layer);
    if row.find(expert, tag) is None {
        assert forall|j: int| 0 <= j < i implies !slot_matches(
            #[trigger] brow.stage[j],
            expert,
            Some(tag),
        ) by {
            assert(brow.stage[j] == row.stage[j]);
        }
        lemma_first_slot_is(brow.stage, expert, Some(tag), i);
    }
}

/// Whatever the current token is served was staged for this token of this request, under a
/// submitted load.
pub proof fn law_served_only_to_its_token(
    a: ArenaView,
    layer: int,
    expert: u32,
    complete: Option<bool>,
)
    requires
        a.wf(),
        a.take(layer, expert, complete) matches Some(t) && t != StagedTake::Miss,
    ensures
        exists|i: int|
            {
                let e = #[trigger] a.served(layer).stage[i];
                &&& 0 <= i < a.candidates
                &&& e.expert == expert
                &&& e.tag == a.consume_tag()
                &&& e.event > 0
            },
{
    lemma_first_slot(a.served(layer).stage, expert, Some(a.consume_tag()));
    let i = a.served(layer).find(expert, a.consume_tag())->0;
    assert(a.served(layer).stage[i].expert == expert);
}

/// A claim for the next token is refused by an arena that is on only where every slot of the row is
/// taken and none by this expert for that token: a row never places more experts than it is wide.
pub proof fn law_refused_only_when_full(a: ArenaView, layer: int, expert: u32)
    requires
        a.wf(),
        a.enabled,
        a.has(layer),
    ensures
        a.stage_claim(layer, expert) is None <==> (forall|i: int|
            0 <= i < a.candidates ==> (#[trigger] a.filled(layer).stage[i]).expert != FREE && !(
            a.filled(layer).stage[i].expert == expert && a.filled(layer).stage[i].tag
                == a.stage_tag())),
{
    lemma_first_slot(a.filled(layer).stage, expert, Some(a.stage_tag()));
    lemma_first_slot(a.filled(layer).stage, FREE, None);
}

/// An arena that is off serves nothing and gives no slot.
pub proof fn law_disabled_serves_nothing(
    a: ArenaView,
    layer: int,
    expert: u32,
    complete: Option<bool>,
)
    requires
        !a.enabled,
    ensures
        a.take(layer, expert, complete) is None,
        a.stage_claim(layer, expert) is None,
        a.demand_claim(layer, expert) is None,
        a.stage_claimed(layer, expert) == a,
        a.demand_claimed(layer, expert) == a,
{
}

/// The next token can be filled in full: a row that no load is still writing to is empty when its
/// turn to be filled comes.
pub proof fn law_next_fill_row_is_free(a: ArenaView, in_flight: Seq<i32>, layer: int, i: int)
    requires
        a.wf(),
        a.token_generation < u64::MAX,
        a.has(layer),
        0 <= i < a.candidates,
    ensures
        ({
            let was = a.served(layer);
            let now = a.begin_token(in_flight).filled(layer);
            &&& now.stage[i].expert != FREE ==> now.stage[i] == was.stage[i] && was.stage[i].event
                > 0 && in_flight.contains(was.slots[i])
        }),
{
    let b = a.begin_token(in_flight);
    assert(b.fill_parity() == a.served_parity());
}

/// A demand read lands where the current token looks, and becomes visible there with no load of
/// its own: the expert is then a miss until it is staged again.
pub proof fn law_demand_claim_is_not_served(
    a: ArenaView,
    layer: int,
    expert: u32,
    complete: Option<bool>,
)
    requires
        a.wf(),
        a.demand_claim(layer, expert) is Some,
    ensures
        a.demand_claimed(layer, expert).take(layer, expert, complete) == Some(StagedTake::Miss),
{
    let tag = a.consume_tag();
    let b = a.demand_claimed(layer, expert);
    let row = a.served(layer);
    let i = a.demand_place(layer, expert)->0;
    lemma_first_slot(row.stage, expert, Some(tag));
    lemma_first_slot(row.stage, FREE, None);
    let brow = b.served(layer);
    assert forall|j: int| 0 <= j < i implies !slot_matches(
        #[trigger] brow.stage[j],
        expert,
        Some(tag),
    ) by {
        assert(brow.stage[j] == row.stage[j]);
    }
    lemma_first_slot_is(brow.stage, expert, Some(tag), i);
}

} // verus!
