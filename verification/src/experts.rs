//! The cache of experts: how large it is, how an expert comes into it, and how a
//! whole set of experts is brought in.

use vstd::prelude::*;

use crate::plan::{planned_from, record_fault, ExpertRecord, PlannedExpert};
use crate::settings::{read_usize, switch_on, usize_of, Settings};
use crate::text::{chars_of, parse_spec, parse_unsigned, trim, trim_spec};

verus! {

/// One gibibyte.
pub const GIB: u64 = 0x4000_0000;

/// Memory up to which a machine has little of it.
pub const SMALL_RAM: u64 = 0x4_0000_0000;

/// How many bytes of memory a machine is taken to have: what the settings say in
/// gibibytes, else what it reports. A number of gibibytes that is too large for a count
/// of bytes says nothing, and neither does the machine then.
pub open spec fn ram_of(s: Settings, reported: Option<u64>) -> Option<u64> {
    match s.value("RAM_GB"@) {
        Some(v) => match parse_spec(trim_spec(v), u64::MAX as nat) {
            Some(n) => if n * GIB <= u64::MAX {
                Some((n * GIB) as u64)
            } else {
                None
            },
            None => reported,
        },
        None => reported,
    }
}

/// How many bytes of memory a machine is taken to have.
pub fn physical_ram_bytes(settings: &Settings, reported: Option<u64>) -> (r: Option<u64>)
    ensures
        r == ram_of(*settings, reported),
{
    match settings.get("RAM_GB") {
        Some(v) => match parse_unsigned(&trim(&chars_of(v)), u64::MAX) {
            Some(n) => n.checked_mul(GIB),
            None => reported,
        },
        None => reported,
    }
}

/// The bytes of memory that a machine reports as text.
pub fn reported_ram(text: &str) -> (r: Option<u64>)
    ensures
        match r {
            Some(n) => parse_spec(trim_spec(text@), u64::MAX as nat) == Some(n as nat),
            None => parse_spec(trim_spec(text@), u64::MAX as nat) is None,
        },
{
    parse_unsigned(&trim(&chars_of(text)), u64::MAX)
}

/// Whether a machine shares little memory between host and device.
pub open spec fn is_small(on_apple: bool, ram: Option<u64>) -> bool {
    on_apple && (ram matches Some(b) && b <= SMALL_RAM)
}

/// How many experts are cached where the settings do not say: fewer where host and
/// device share little memory.
pub fn default_cache_cap_for_ram(on_apple: bool, ram: Option<u64>) -> (r: usize)
    ensures
        r == (if is_small(on_apple, ram) {
            128usize
        } else {
            256
        }),
{
    let small: bool = match ram {
        Some(b) => on_apple && b <= SMALL_RAM,
        None => false,
    };
    if small {
        128
    } else {
        256
    }
}

/// How many experts the settings say are cached, at least one.
pub open spec fn asked_cap(s: Settings) -> Option<usize> {
    match s.value("QWEN4_CACHE"@) {
        Some(v) => match usize_of(v) {
            Some(n) => Some(
                if n == 0 {
                    1
                } else {
                    n
                },
            ),
            None => None,
        },
        None => None,
    }
}

/// How many experts are cached.
pub open spec fn cap_of(s: Settings, on_apple: bool, reported: Option<u64>) -> usize {
    match asked_cap(s) {
        Some(n) => n,
        None => if is_small(on_apple, ram_of(s, reported)) {
            128
        } else {
            256
        },
    }
}

fn explicit_cap(settings: &Settings) -> (r: Option<usize>)
    ensures
        r == asked_cap(*settings),
        r matches Some(n) ==> n >= 1,
{
    let asked: Option<usize> = match settings.get("QWEN4_CACHE") {
        Some(v) => read_usize(&chars_of(v)),
        None => None,
    };
    match asked {
        Some(n) => Some(
            if n == 0 {
                1
            } else {
                n
            },
        ),
        None => None,
    }
}

/// How many experts are cached: at least one.
pub fn cache_cap(settings: &Settings, on_apple: bool, reported: Option<u64>) -> (r: usize)
    ensures
        r == cap_of(*settings, on_apple, reported),
        r >= 1,
{
    match explicit_cap(settings) {
        Some(n) => n,
        None => default_cache_cap_for_ram(on_apple, physical_ram_bytes(settings, reported)),
    }
}

/// How a cache of experts is laid out.
#[derive(Clone, Copy, Debug, PartialEq, Eq, Structural)]
pub enum StoreKind {
    /// One for all layers.
    Flat { cap: usize },
    /// One for every layer.
    Layered { layers: usize, per_layer: usize },
}

/// How the cache of experts is laid out. A capacity that the settings give always wins and is that
/// of one cache for all layers. Else it is as they say of every layer, else one for every layer where
/// host and device share little memory, else one for all.
pub open spec fn store_of(
    s: Settings,
    on_apple: bool,
    reported: Option<u64>,
    layers: usize,
    topk: usize,
) -> StoreKind {
    let flat = StoreKind::Flat { cap: cap_of(s, on_apple, reported) };
    let asked = match s.value("QWEN4_CACHE_PER_LAYER"@) {
        Some(v) => usize_of(v),
        None => None,
    };
    match asked {
        _ if asked_cap(s) is Some => flat,
        Some(n) => if n == 0 {
            flat
        } else {
            StoreKind::Layered { layers, per_layer: n }
        },
        None => if is_small(on_apple, ram_of(s, reported)) {
            StoreKind::Layered {
                layers,
                per_layer: if topk == 0 {
                    1
                } else {
                    topk
                },
            }
        } else {
            flat
        },
    }
}

/// How the cache of experts is laid out.
pub fn make_expert_store(
    settings: &Settings,
    on_apple: bool,
    reported: Option<u64>,
    layers: usize,
    topk: usize,
) -> (r: StoreKind)
    ensures
        r == store_of(*settings, on_apple, reported, layers, topk),
{
    if let Some(cap) = explicit_cap(settings) {
        return StoreKind::Flat { cap };
    }
    let asked: Option<usize> = match settings.get("QWEN4_CACHE_PER_LAYER") {
        Some(v) => read_usize(&chars_of(v)),
        None => None,
    };
    match asked {
        Some(n) => {
            return if n == 0 {
                StoreKind::Flat { cap: cache_cap(settings, on_apple, reported) }
            } else {
                StoreKind::Layered { layers, per_layer: n }
            };
        },
        None => {},
    }
    let small: bool = match physical_ram_bytes(settings, reported) {
        Some(b) => on_apple && b <= SMALL_RAM,
        None => false,
    };
    if small {
        StoreKind::Layered {
            layers,
            per_layer: if topk == 0 {
                1
            } else {
                topk
            },
        }
    } else {
        StoreKind::Flat { cap: cache_cap(settings, on_apple, reported) }
    }
}

/// A capacity that the settings give always wins: it is the capacity of the cache, whatever the
/// machine is and whatever else is set.
pub proof fn law_an_explicit_capacity_wins(
    s: Settings,
    on_apple: bool,
    reported: Option<u64>,
    layers: usize,
    topk: usize,
)
    requires
        asked_cap(s) is Some,
    ensures
        cap_of(s, on_apple, reported) == asked_cap(s)->0,
        store_of(s, on_apple, reported, layers, topk) == (StoreKind::Flat { cap: asked_cap(s)->0 }),
{
}

/// Every cache has room for at least one expert of every layer it serves.
pub proof fn law_every_cache_has_room(
    s: Settings,
    on_apple: bool,
    reported: Option<u64>,
    layers: usize,
    topk: usize,
)
    ensures
        match store_of(s, on_apple, reported, layers, topk) {
            StoreKind::Flat { cap } => cap >= 1,
            StoreKind::Layered { layers: l, per_layer } => l == layers && per_layer >= 1,
        },
{
}

/// Where an expert is to be loaded from: where the plan says, else where its record
/// says, if the record is in order.
pub fn issue_from(planned: Option<PlannedExpert>, record: Option<ExpertRecord>) -> (r: Option<
    PlannedExpert,
>)
    ensures
        match r {
            Some(p) => match planned {
                Some(q) => p == q,
                None => record_fault(record) is None && planned_from(p, record),
            },
            None => planned is None && record_fault(record) is Some,
        },
{
    match planned {
        Some(p) => {
            return Some(p);
        },
        None => {},
    }
    match record {
        Some(rec) => match rec.matrices {
            Some((regions, dims)) => {
                if regions.len() < 3 || dims.len() < 3 {
                    return None;
                }
                Some(
                    PlannedExpert {
                        shard_id: rec.shard_id,
                        regions: [regions[0], regions[1], regions[2]],
                        dims: [dims[0], dims[1], dims[2]],
                    },
                )
            },
            None => None,
        },
        None => None,
    }
}

/// What is to be done next to have an expert in the cache.
#[derive(Clone, Copy, Debug, PartialEq, Eq, Structural)]
pub enum IssueStage {
    /// Look it up. A look ahead of time does not count as a use.
    Look,
    /// See whether there is a package.
    Package,
    /// See where it is to be loaded from.
    Locate,
    /// Find its shard.
    Shard,
    /// Open the shard for the device.
    Open,
    /// Start the load into a slot.
    Start,
    /// See whether the host can see the slot.
    Address,
    /// Hand a slot back that the host cannot see.
    Free,
    /// Put the expert in the cache and hand back what it pushes out.
    Insert,
    /// It is in the cache, or on its way into it.
    Held,
    /// It cannot be had.
    Missing,
}

/// What follows a stage.
pub open spec fn issue_after(stage: IssueStage, ok: bool) -> IssueStage {
    match stage {
        IssueStage::Look => if ok {
            IssueStage::Held
        } else {
            IssueStage::Package
        },
        IssueStage::Free => IssueStage::Missing,
        IssueStage::Insert => IssueStage::Held,
        IssueStage::Held => IssueStage::Held,
        IssueStage::Missing => IssueStage::Missing,
        IssueStage::Address => if ok {
            IssueStage::Insert
        } else {
            IssueStage::Free
        },
        _ => if !ok {
            IssueStage::Missing
        } else {
            match stage {
                IssueStage::Package => IssueStage::Locate,
                IssueStage::Locate => IssueStage::Shard,
                IssueStage::Shard => IssueStage::Open,
                IssueStage::Open => IssueStage::Start,
                _ => IssueStage::Address,
            }
        },
    }
}

/// Goes on to the next stage.
pub fn issue_step(stage: IssueStage, ok: bool) -> (r: IssueStage)
    ensures
        r == issue_after(stage, ok),
{
    let next: IssueStage = match stage {
        IssueStage::Look => {
            return if ok {
                IssueStage::Held
            } else {
                IssueStage::Package
            };
        },
        IssueStage::Address => {
            return if ok {
                IssueStage::Insert
            } else {
                IssueStage::Free
            };
        },
        IssueStage::Free => {
            return IssueStage::Missing;
        },
        IssueStage::Insert => {
            return IssueStage::Held;
        },
        IssueStage::Held => {
            return IssueStage::Held;
        },
        IssueStage::Missing => {
            return IssueStage::Missing;
        },
        IssueStage::Package => IssueStage::Locate,
        IssueStage::Locate => IssueStage::Shard,
        IssueStage::Shard => IssueStage::Open,
        IssueStage::Open => IssueStage::Start,
        IssueStage::Start => IssueStage::Address,
    };
    if ok {
        next
    } else {
        IssueStage::Missing
    }
}

/// How far a stage is from its end.
pub open spec fn issue_distance(stage: IssueStage) -> int {
    match stage {
        IssueStage::Look => 8,
        IssueStage::Package => 7,
        IssueStage::Locate => 6,
        IssueStage::Shard => 5,
        IssueStage::Open => 4,
        IssueStage::Start => 3,
        IssueStage::Address => 2,
        IssueStage::Free => 1,
        IssueStage::Insert => 1,
        IssueStage::Held => 0,
        IssueStage::Missing => 0,
    }
}

/// An expert is had or not after finitely many stages, and a slot that was taken for it
/// is in the cache or has been handed back.
pub proof fn law_every_issue_ends(stage: IssueStage, ok: bool)
    requires
        issue_distance(stage) > 0,
    ensures
        0 <= issue_distance(issue_after(stage, ok)) < issue_distance(stage),
        stage is Address ==> !(issue_after(stage, ok) is Missing),
        stage is Free ==> issue_after(stage, ok) is Missing,
        stage is Insert ==> issue_after(stage, ok) is Held,
{
}

/// The event that has to be waited for before an expert can be used: none where the
/// expert is not in the cache or has arrived.
pub fn event_to_wait_for(pending: Option<i64>) -> (r: Option<i64>)
    ensures
        r == (match pending {
            Some(ev) => if ev == 0 {
                None
            } else {
                Some(ev)
            },
            None => None,
        }),
{
    match pending {
        Some(ev) => if ev == 0 {
            None
        } else {
            Some(ev)
        },
        None => None,
    }
}

/// Whether the experts of the last route are brought in ahead of time.
pub fn prefetches(settings: &Settings, scheduled: bool) -> (r: bool)
    ensures
        r == (switch_on(settings.value("QWEN_PREV_ROUTE_PREFETCH"@), false) && !scheduled),
{
    settings.on("QWEN_PREV_ROUTE_PREFETCH", false) && !scheduled
}

/// What is to be done next to bring a set of experts in.
#[derive(Clone, Copy, Debug, PartialEq, Eq, Structural)]
pub enum PreloadStage {
    /// Have the expert at this place of the set in the cache.
    Issue(usize),
    /// See whether any is still on its way.
    Look,
    /// Set a barrier behind all loads.
    Barrier,
    /// Wait for the barrier.
    WaitAll,
    /// Mark all as arrived.
    Arrived,
    /// Wait for the expert at this place of the set.
    WaitOne(usize),
    Done,
    Failed,
}

/// What follows a stage, for a set of `n` experts.
pub open spec fn preload_after(n: int, stage: PreloadStage, ok: bool) -> PreloadStage {
    match stage {
        PreloadStage::Issue(i) => if !ok {
            PreloadStage::Failed
        } else if i + 1 < n {
            PreloadStage::Issue((i + 1) as usize)
        } else {
            PreloadStage::Look
        },
        PreloadStage::Look => if ok {
            PreloadStage::Barrier
        } else {
            PreloadStage::Done
        },
        PreloadStage::Barrier => if ok {
            PreloadStage::WaitAll
        } else {
            PreloadStage::WaitOne(0)
        },
        PreloadStage::WaitAll => if ok {
            PreloadStage::Arrived
        } else {
            PreloadStage::Failed
        },
        PreloadStage::Arrived => PreloadStage::Done,
        PreloadStage::WaitOne(i) => if !ok {
            PreloadStage::Failed
        } else if i + 1 < n {
            PreloadStage::WaitOne((i + 1) as usize)
        } else {
            PreloadStage::Done
        },
        PreloadStage::Done => PreloadStage::Done,
        PreloadStage::Failed => PreloadStage::Failed,
    }
}

/// Where bringing a set of experts in begins: nowhere where there is no package, no
/// expert, or no room for all of them.
pub fn preload_start(package: bool, n: usize, cap: usize) -> (r: PreloadStage)
    ensures
        r == (if !package || n == 0 || n > cap {
            PreloadStage::Failed
        } else {
            PreloadStage::Issue(0)
        }),
{
    if !package || n == 0 || n > cap {
        PreloadStage::Failed
    } else {
        PreloadStage::Issue(0)
    }
}

/// Goes on to the next stage.
pub fn preload_step(n: usize, stage: PreloadStage, ok: bool) -> (r: PreloadStage)
    ensures
        r == preload_after(n as int, stage, ok),
{
    match stage {
        PreloadStage::Issue(i) => if !ok {
            PreloadStage::Failed
        } else if n > 0 && i < n - 1 {
            PreloadStage::Issue(i + 1)
        } else {
            PreloadStage::Look
        },
        PreloadStage::Look => if ok {
            PreloadStage::Barrier
        } else {
            PreloadStage::Done
        },
        PreloadStage::Barrier => if ok {
            PreloadStage::WaitAll
        } else {
            PreloadStage::WaitOne(0)
        },
        PreloadStage::WaitAll => if ok {
            PreloadStage::Arrived
        } else {
            PreloadStage::Failed
        },
        PreloadStage::Arrived => PreloadStage::Done,
        PreloadStage::WaitOne(i) => if !ok {
            PreloadStage::Failed
        } else if n > 0 && i < n - 1 {
            PreloadStage::WaitOne(i + 1)
        } else {
            PreloadStage::Done
        },
        PreloadStage::Done => PreloadStage::Done,
        PreloadStage::Failed => PreloadStage::Failed,
    }
}

/// How far a stage is from its end.
pub open spec fn preload_distance(n: int, stage: PreloadStage) -> int {
    match stage {
        PreloadStage::Issue(i) => 2 * n + 6 - i,
        PreloadStage::Look => n + 5,
        PreloadStage::Barrier => n + 4,
        PreloadStage::WaitAll => 2,
        PreloadStage::Arrived => 1,
        PreloadStage::WaitOne(i) => n + 1 - i,
        PreloadStage::Done => 0,
        PreloadStage::Failed => 0,
    }
}

/// Whether a stage speaks of an expert of the set.
pub open spec fn preload_wf(n: int, stage: PreloadStage) -> bool {
    match stage {
        PreloadStage::Issue(i) => i < n,
        PreloadStage::WaitOne(i) => i < n,
        _ => n >= 1,
    }
}

/// Bringing a set in comes to an end, and every stage speaks of an expert of the set.
pub proof fn law_every_preload_ends(n: int, stage: PreloadStage, ok: bool)
    requires
        1 <= n <= usize::MAX,
        preload_wf(n, stage),
        !(stage is Done || stage is Failed),
    ensures
        preload_wf(n, preload_after(n, stage, ok)),
        0 <= preload_distance(n, preload_after(n, stage, ok)) < preload_distance(n, stage),
{
}

/// A set that was brought in has every expert of it in the cache: only the last one
/// that was had leads on, and a failure never leads to success.
pub proof fn law_nothing_is_left_out(n: int, stage: PreloadStage, ok: bool)
    requires
        1 <= n <= usize::MAX,
        preload_wf(n, stage),
    ensures
        stage is Issue && !(preload_after(n, stage, ok) is Issue) && !(preload_after(n, stage, ok) is Failed)
            ==> stage->Issue_0 == n - 1 && ok,
        stage is Failed ==> preload_after(n, stage, ok) is Failed,
        stage is WaitOne && preload_after(n, stage, ok) is Done ==> stage->WaitOne_0 == n - 1 && ok,
        stage is WaitAll && !ok ==> preload_after(n, stage, ok) is Failed,
{
}

/// The memory of a machine is what the settings say, a gibibyte for each one of it, and only where they
/// say nothing that is a number what the machine reports.
pub proof fn law_memory_is_counted_in_gibibytes(s: Settings, reported: Option<u64>, n: nat)
    ensures
        s.value("RAM_GB"@) is None ==> ram_of(s, reported) == reported,
        s.value("RAM_GB"@) is Some && parse_spec(
            trim_spec(s.value("RAM_GB"@)->0),
            u64::MAX as nat,
        ) is None ==> ram_of(s, reported) == reported,
        s.value("RAM_GB"@) is Some && parse_spec(
            trim_spec(s.value("RAM_GB"@)->0),
            u64::MAX as nat,
        ) == Some(n) && n * 1073741824 <= u64::MAX ==> ram_of(s, reported) == Some(
            (n * 1073741824) as u64,
        ),
{
}

/// The size of a cache: 128 experts on an Apple machine of sixteen gibibytes or less, 256 on any other,
/// unless a number is asked for, which is never taken for less than one.
pub proof fn law_how_many_experts_are_cached(s: Settings, on_apple: bool, reported: Option<u64>)
    requires
        s.value("RAM_GB"@) is None,
    ensures
        s.value("QWEN4_CACHE"@) is None ==> cap_of(s, on_apple, reported) == (if on_apple
            && reported is Some && reported->0 <= 16 * 1073741824 {
            128usize
        } else {
            256
        }),
        s.value("QWEN4_CACHE"@) is Some && usize_of(s.value("QWEN4_CACHE"@)->0) is Some ==> {
            let n = usize_of(s.value("QWEN4_CACHE"@)->0)->0;
            &&& n > 0 ==> cap_of(s, on_apple, reported) == n
            &&& n == 0 ==> cap_of(s, on_apple, reported) == 1
        },
{
}

/// A cache is parted by layers where that is asked for, or where an Apple machine has little memory and
/// nothing is asked for; each layer then has room for as many experts as are asked for, or as a token
/// has.
pub proof fn law_where_a_cache_is_parted_by_layers(
    s: Settings,
    on_apple: bool,
    reported: Option<u64>,
    layers: usize,
    topk: usize,
)
    requires
        asked_cap(s) is None,
    ensures
        ({
            let per = s.value("QWEN4_CACHE_PER_LAYER"@);
            let store = store_of(s, on_apple, reported, layers, topk);
            let little = on_apple && ram_of(s, reported) is Some && ram_of(s, reported)->0 <= 16
                * 1073741824;
            &&& per is Some && usize_of(per->0) is Some && usize_of(per->0)->0 > 0 ==> store == (
            StoreKind::Layered { layers, per_layer: usize_of(per->0)->0 })
            &&& per is Some && usize_of(per->0) == Some(0usize) ==> store is Flat
            &&& (per is None || usize_of(per->0) is None) && topk > 0 ==> store == (if little {
                StoreKind::Layered { layers, per_layer: topk }
            } else {
                StoreKind::Flat { cap: 256 }
            })
        }),
{
}

/// Bringing an expert in goes through all of its stages, and ends without it where one fails; a slot
/// that was given is then given back.
pub proof fn law_bringing_an_expert_in_goes_stage_by_stage(stage: IssueStage)
    ensures
        issue_after(IssueStage::Look, true) is Held,
        issue_after(IssueStage::Look, false) is Package,
        issue_after(IssueStage::Package, true) is Locate,
        issue_after(IssueStage::Locate, true) is Shard,
        issue_after(IssueStage::Shard, true) is Open,
        issue_after(IssueStage::Open, true) is Start,
        issue_after(IssueStage::Start, true) is Address,
        issue_after(IssueStage::Address, true) is Insert,
        issue_after(IssueStage::Address, false) is Free,
        stage is Package || stage is Locate || stage is Shard || stage is Open || stage is Start
            ==> issue_after(stage, false) is Missing,
        stage is Held || stage is Missing ==> issue_after(stage, true) == stage && issue_after(
            stage,
            false,
        ) == stage,
{
}

/// A preload asks for every expert in turn and then waits, for all at once where there is one event and
/// for each in turn where there is none.
pub proof fn law_a_preload_asks_and_waits_in_turn(n: int, i: usize)
    requires
        0 <= i < n <= usize::MAX,
    ensures
        preload_after(n, PreloadStage::Issue(i), true) == (if i + 1 == n {
            PreloadStage::Look
        } else {
            PreloadStage::Issue((i + 1) as usize)
        }),
        preload_after(n, PreloadStage::WaitOne(i), true) == (if i + 1 == n {
            PreloadStage::Done
        } else {
            PreloadStage::WaitOne((i + 1) as usize)
        }),
        preload_after(n, PreloadStage::Look, true) is Barrier,
        preload_after(n, PreloadStage::Look, false) is Done,
        preload_after(n, PreloadStage::Barrier, true) is WaitAll,
        preload_after(n, PreloadStage::Barrier, false) == PreloadStage::WaitOne(0),
        preload_after(n, PreloadStage::WaitAll, true) is Arrived,
        preload_after(n, PreloadStage::Arrived, true) is Done,
        preload_after(n, PreloadStage::Issue(i), false) is Failed,
        preload_after(n, PreloadStage::WaitOne(i), false) is Failed,
{
}

} // verus!
