//! The experts of a token: how they are brought in, where they run, and what is
//! done when a device declines.
//!
//! Running the experts of a token alternates work on a device with decisions.
//! [`MoeRun`] makes the decisions: at every stage it says what is to be done,
//! and it is told whether that succeeded.

use vstd::prelude::*;
use vstd::slice::slice_subrange;

use crate::colisource::{SlotExpert, SlotRef};
use crate::plan::PlannedExpert;
use crate::settings::{switch_on, Settings};
use crate::weights::{Wt, WtBytes};

verus! {

/// What is to be done next for the experts of a token.
#[derive(Clone, Copy, Debug, PartialEq, Eq, Structural)]
pub enum MoeStage {
    /// Move the experts of the route that are resident to the fresh end of the cache.
    Promote,
    /// Have the expert of a rank brought in; fails where it cannot be.
    Issue(usize),
    /// Ask whether any expert is still on its way.
    AskPending,
    /// Ask for one event for all of them; fails where there is none to be had.
    Barrier,
    /// Compute the shared expert while experts are on their way.
    EarlyShared { batch: bool },
    /// Wait for the one event.
    BatchWait,
    /// Wait for the expert of a rank.
    Wait(usize),
    /// Start the experts on the device.
    Begin,
    /// Run the experts on the device to the end.
    Run,
    /// Compute the shared expert, then go on.
    LateShared { finish: bool },
    /// Wait for what was started on the device.
    Finish,
    /// Run all experts on the host after the device has failed.
    Refill,
    /// Run all experts on the host.
    Fill,
    /// Add experts and shared expert up.
    Output,
}

/// Why the experts run on the host.
#[derive(Clone, Copy, Debug, PartialEq, Eq, Structural)]
pub enum Fallback {
    DirectDisabled,
    Unknown,
    ExpertIssue,
    BatchWait,
    MoeBegin,
}

/// Where the experts ran.
#[derive(Clone, Copy, Debug, PartialEq, Eq, Structural)]
pub enum Maker {
    Device,
    Host,
}

/// The experts of a token on their way to the output.
#[derive(Clone, Copy, Debug, PartialEq, Eq, Structural)]
pub struct MoeRun {
    /// How many experts the token has.
    pub k: usize,
    /// Whether one event is asked for all experts.
    pub batch_wait: bool,
    /// Whether the shared expert is computed while experts are on their way.
    pub shared_overlap: bool,
    /// Whether the device runs beside the host.
    pub device_overlap: bool,
    pub stage: MoeStage,
    /// Whether the shared expert has been computed.
    pub shared: bool,
    pub made_by: Option<Maker>,
    pub reason: Fallback,
}

impl MoeRun {
    /// Ranks are those there are, and the output has all it adds up.
    pub open spec fn wf(self) -> bool {
        &&& self.stage matches MoeStage::Issue(i) ==> i < self.k
        &&& self.stage matches MoeStage::Wait(i) ==> i < self.k
        &&& self.stage is Output <==> (self.shared && self.made_by is Some)
        &&& self.stage matches MoeStage::LateShared { finish } ==> !self.shared && (finish
            <==> self.made_by is None)
        &&& !(self.stage is LateShared || self.stage is Output) ==> self.made_by is None
        &&& (self.stage is Finish || self.stage is Refill) ==> self.shared
        &&& (self.stage is Promote || self.stage is Issue || self.stage is AskPending
            || self.stage is Barrier || self.stage is EarlyShared) ==> !self.shared
    }

    /// The experts cannot run on the device.
    pub open spec fn fallen(self, reason: Fallback) -> MoeRun {
        MoeRun { stage: MoeStage::Fill, reason, ..self }
    }

    /// What follows once all experts have been asked for.
    pub open spec fn asked(self) -> MoeRun {
        MoeRun { stage: MoeStage::AskPending, ..self }
    }

    /// What follows once all experts are there.
    pub open spec fn launched(self) -> MoeRun {
        MoeRun {
            stage: if self.device_overlap {
                MoeStage::Begin
            } else {
                MoeStage::Run
            },
            ..self
        }
    }

    /// How the experts are waited for.
    pub open spec fn waiting(self, batch: bool) -> MoeRun {
        if batch {
            MoeRun { stage: MoeStage::BatchWait, ..self }
        } else if self.k == 0 {
            self.launched()
        } else {
            MoeRun { stage: MoeStage::Wait(0), ..self }
        }
    }

    /// What follows once it is known how the experts are waited for.
    pub open spec fn arriving(self, batch: bool) -> MoeRun {
        if self.shared_overlap {
            MoeRun { stage: MoeStage::EarlyShared { batch }, ..self }
        } else {
            self.waiting(batch)
        }
    }

    /// What follows once the experts have run.
    pub open spec fn made(self, by: Maker) -> MoeRun {
        MoeRun {
            stage: if self.shared {
                MoeStage::Output
            } else {
                MoeStage::LateShared { finish: false }
            },
            made_by: Some(by),
            ..self
        }
    }

    /// What follows once the stage is over, and whether it succeeded.
    pub open spec fn after(self, ok: bool) -> MoeRun {
        match self.stage {
            MoeStage::Promote => if self.k == 0 {
                self.asked()
            } else {
                MoeRun { stage: MoeStage::Issue(0), ..self }
            },
            MoeStage::Issue(i) => if !ok {
                self.fallen(Fallback::ExpertIssue)
            } else if i + 1 < self.k {
                MoeRun { stage: MoeStage::Issue((i + 1) as usize), ..self }
            } else {
                self.asked()
            },
            MoeStage::AskPending => if self.batch_wait && ok {
                MoeRun { stage: MoeStage::Barrier, ..self }
            } else {
                self.arriving(false)
            },
            MoeStage::Barrier => self.arriving(ok),
            MoeStage::EarlyShared { batch } => (MoeRun { shared: true, ..self }).waiting(batch),
            MoeStage::BatchWait => if ok {
                self.launched()
            } else {
                self.fallen(Fallback::BatchWait)
            },
            MoeStage::Wait(i) => if !ok {
                self.fallen(self.reason)
            } else if i + 1 < self.k {
                MoeRun { stage: MoeStage::Wait((i + 1) as usize), ..self }
            } else {
                self.launched()
            },
            MoeStage::Begin => if !ok {
                self.fallen(Fallback::MoeBegin)
            } else if self.shared {
                MoeRun { stage: MoeStage::Finish, ..self }
            } else {
                MoeRun { stage: MoeStage::LateShared { finish: true }, ..self }
            },
            MoeStage::Run => if ok {
                self.made(Maker::Device)
            } else {
                self.fallen(self.reason)
            },
            MoeStage::LateShared { finish } => MoeRun {
                stage: if finish {
                    MoeStage::Finish
                } else {
                    MoeStage::Output
                },
                shared: true,
                ..self
            },
            MoeStage::Finish => if ok {
                self.made(Maker::Device)
            } else {
                MoeRun { stage: MoeStage::Refill, ..self }
            },
            MoeStage::Refill => self.made(Maker::Host),
            MoeStage::Fill => self.made(Maker::Host),
            MoeStage::Output => self,
        }
    }

    /// How far a run is from its output.
    pub open spec fn distance(self) -> int {
        match self.stage {
            MoeStage::Promote => 2 * self.k + 20,
            MoeStage::Issue(i) => 2 * self.k - i + 15,
            MoeStage::AskPending => self.k + 14,
            MoeStage::Barrier => self.k + 13,
            MoeStage::EarlyShared { .. } => self.k + 12,
            MoeStage::BatchWait => self.k + 10,
            MoeStage::Wait(i) => self.k - i + 10,
            MoeStage::Begin => 8,
            MoeStage::Run => 8,
            MoeStage::Fill => 6,
            MoeStage::LateShared { finish } => if finish {
                5
            } else {
                1
            },
            MoeStage::Finish => 4,
            MoeStage::Refill => 3,
            MoeStage::Output => 0,
        }
    }

    /// The beginning of a run.
    pub open spec fn begun(
        k: usize,
        direct: bool,
        pin: bool,
        batch_wait: bool,
        shared_overlap: bool,
        device_overlap: bool,
    ) -> MoeRun {
        let run = MoeRun {
            k,
            batch_wait,
            shared_overlap,
            device_overlap,
            stage: MoeStage::Fill,
            shared: false,
            made_by: None,
            reason: Fallback::DirectDisabled,
        };
        if !direct {
            run
        } else if pin {
            MoeRun { stage: MoeStage::Promote, reason: Fallback::Unknown, ..run }
        } else if k == 0 {
            MoeRun { stage: MoeStage::AskPending, reason: Fallback::Unknown, ..run }
        } else {
            MoeRun { stage: MoeStage::Issue(0), reason: Fallback::Unknown, ..run }
        }
    }

    /// Begins a run. The device is used where the model and the machine allow it, for
    /// up to sixty-four experts of a package.
    pub fn start(
        settings: &Settings,
        metal_direct: bool,
        available: bool,
        package: bool,
        k: usize,
        device_overlap: bool,
    ) -> (r: MoeRun)
        ensures
            r == MoeRun::begun(
                k,
                metal_direct && available && k <= 64 && package,
                switch_on(settings.value("QWEN_ROUTE_PIN_HITS"@), true),
                switch_on(settings.value("QWEN_MIO_BATCH_WAIT"@), true),
                switch_on(settings.value("QWEN_SHARED_IO_OVERLAP"@), true),
                device_overlap,
            ),
            r.wf(),
    {
        let direct: bool = metal_direct && available && k <= 64 && package;
        let stage: MoeStage = if !direct {
            MoeStage::Fill
        } else if settings.on("QWEN_ROUTE_PIN_HITS", true) {
            MoeStage::Promote
        } else if k == 0 {
            MoeStage::AskPending
        } else {
            MoeStage::Issue(0)
        };
        MoeRun {
            k,
            batch_wait: settings.on("QWEN_MIO_BATCH_WAIT", true),
            shared_overlap: settings.on("QWEN_SHARED_IO_OVERLAP", true),
            device_overlap,
            stage,
            shared: false,
            made_by: None,
            reason: if direct {
                Fallback::Unknown
            } else {
                Fallback::DirectDisabled
            },
        }
    }

    fn launch(&mut self)
        ensures
            *final(self) == old(self).launched(),
    {
        self.stage = if self.device_overlap {
            MoeStage::Begin
        } else {
            MoeStage::Run
        };
    }

    fn wait(&mut self, batch: bool)
        ensures
            *final(self) == old(self).waiting(batch),
    {
        if batch {
            self.stage = MoeStage::BatchWait;
        } else if self.k == 0 {
            self.launch();
        } else {
            self.stage = MoeStage::Wait(0);
        }
    }

    fn arrive(&mut self, batch: bool)
        ensures
            *final(self) == old(self).arriving(batch),
    {
        if self.shared_overlap {
            self.stage = MoeStage::EarlyShared { batch };
        } else {
            self.wait(batch);
        }
    }

    fn make(&mut self, by: Maker)
        ensures
            *final(self) == old(self).made(by),
    {
        self.made_by = Some(by);
        self.stage = if self.shared {
            MoeStage::Output
        } else {
            MoeStage::LateShared { finish: false }
        };
    }

    fn fall(&mut self, reason: Fallback)
        ensures
            *final(self) == old(self).fallen(reason),
    {
        self.stage = MoeStage::Fill;
        self.reason = reason;
    }

    /// Goes on to the next stage. Of the question whether anything is on its way, the
    /// answer is what is handed in; of every other stage, whether it succeeded.
    pub fn step(&mut self, ok: bool)
        requires
            old(self).wf(),
        ensures
            *final(self) == old(self).after(ok),
            final(self).wf(),
    {
        match self.stage {
            MoeStage::Promote => {
                self.stage = if self.k == 0 {
                    MoeStage::AskPending
                } else {
                    MoeStage::Issue(0)
                };
            },
            MoeStage::Issue(i) => {
                if !ok {
                    self.fall(Fallback::ExpertIssue);
                } else if i + 1 < self.k {
                    self.stage = MoeStage::Issue(i + 1);
                } else {
                    self.stage = MoeStage::AskPending;
                }
            },
            MoeStage::AskPending => {
                if self.batch_wait && ok {
                    self.stage = MoeStage::Barrier;
                } else {
                    self.arrive(false);
                }
            },
            MoeStage::Barrier => {
                self.arrive(ok);
            },
            MoeStage::EarlyShared { batch } => {
                self.shared = true;
                self.wait(batch);
            },
            MoeStage::BatchWait => {
                if ok {
                    self.launch();
                } else {
                    self.fall(Fallback::BatchWait);
                }
            },
            MoeStage::Wait(i) => {
                if !ok {
                    self.stage = MoeStage::Fill;
                } else if i + 1 < self.k {
                    self.stage = MoeStage::Wait(i + 1);
                } else {
                    self.launch();
                }
            },
            MoeStage::Begin => {
                if !ok {
                    self.fall(Fallback::MoeBegin);
                } else if self.shared {
                    self.stage = MoeStage::Finish;
                } else {
                    self.stage = MoeStage::LateShared { finish: true };
                }
            },
            MoeStage::Run => {
                if ok {
                    self.make(Maker::Device);
                } else {
                    self.stage = MoeStage::Fill;
                }
            },
            MoeStage::LateShared { finish } => {
                self.shared = true;
                self.stage = if finish {
                    MoeStage::Finish
                } else {
                    MoeStage::Output
                };
            },
            MoeStage::Finish => {
                if ok {
                    self.make(Maker::Device);
                } else {
                    self.stage = MoeStage::Refill;
                }
            },
            MoeStage::Refill => {
                self.make(Maker::Host);
            },
            MoeStage::Fill => {
                self.make(Maker::Host);
            },
            MoeStage::Output => {},
        }
    }
}

/// Every run comes to its output, whatever the device answers.
pub proof fn law_every_run_ends(run: MoeRun, ok: bool)
    requires
        run.wf(),
        !(run.stage is Output),
    ensures
        run.after(ok).wf(),
        0 <= run.after(ok).distance() < run.distance(),
{
}

/// The output adds up experts that ran once, on the device or on the host, and a
/// shared expert that was computed once: it is never computed again once it is
/// there, and experts never run again once they have.
pub proof fn law_nothing_is_computed_twice(run: MoeRun, ok: bool)
    requires
        run.wf(),
    ensures
        run.stage is Output ==> run.shared && run.made_by is Some,
        run.stage is EarlyShared || run.stage is LateShared ==> !run.shared && run.after(ok).shared,
        run.stage is Run || run.stage is Finish || run.stage is Refill || run.stage is Fill
            ==> run.made_by is None,
        run.shared ==> run.after(ok).shared,
        run.made_by is Some ==> run.after(ok).made_by == run.made_by,
{
}

/// Where the host takes an expert from that it runs itself.
#[derive(Clone, Copy, Debug, PartialEq, Eq, Structural)]
pub enum ExpertFrom {
    /// The slot it was loaded into.
    Slot,
    /// The package, unpacked.
    Package,
    /// The model, which holds its experts.
    Model,
    /// Nowhere: it is left out.
    Nowhere,
}

/// Where the host takes an expert from. After a device has failed with experts that it had taken on
/// (`again`), those that cannot be had are left out.
pub fn expert_from(again: bool, package: bool, arrived: bool) -> (r: ExpertFrom)
    ensures
        r == (if again {
            if arrived {
                ExpertFrom::Slot
            } else {
                ExpertFrom::Nowhere
            }
        } else if !package {
            ExpertFrom::Model
        } else if arrived {
            ExpertFrom::Slot
        } else {
            ExpertFrom::Package
        }),
{
    if again {
        if arrived {
            ExpertFrom::Slot
        } else {
            ExpertFrom::Nowhere
        }
    } else if !package {
        ExpertFrom::Model
    } else if arrived {
        ExpertFrom::Slot
    } else {
        ExpertFrom::Package
    }
}

/// The next multiple of sixteen.
pub open spec fn rounded16(n: int) -> int {
    (n + 15) / 16 * 16
}

/// Where the second and the third matrix of an expert begin in its slot.
pub fn slot_offsets(gate: usize, up: usize) -> (r: (usize, usize))
    requires
        rounded16(gate as int) + up + 15 <= usize::MAX,
    ensures
        r.0 == rounded16(gate as int),
        r.1 == rounded16(rounded16(gate as int) + up),
{
    if gate > usize::MAX - 15 {
        assert(rounded16(gate as int) >= gate);
    }
    let up_offset: usize = (gate + 15) / 16 * 16;
    let down_offset: usize = (up_offset + up + 15) / 16 * 16;
    (up_offset, down_offset)
}

/// The matrices of an expert lie one behind the other, none begins before the one
/// before it ends, and each begins at a multiple of sixteen.
pub proof fn law_slot_matrices_do_not_overlap(gate: int, up: int)
    requires
        gate >= 0,
        up >= 0,
    ensures
        gate <= rounded16(gate) < gate + 16,
        rounded16(gate) + up <= rounded16(rounded16(gate) + up),
        rounded16(gate) % 16 == 0,
        rounded16(rounded16(gate) + up) % 16 == 0,
{
}

/// The expert in a slot, as a plan has it.
pub open spec fn slot_of(p: PlannedExpert, slot: i32, event: i64, address: u64, r: SlotExpert) -> bool {
    let (g, u, d) = (p.regions[0].1, p.regions[1].1, p.regions[2].1);
    &&& r.slot == slot
    &&& r.gate_bytes == g
    &&& r.up_offset == rounded16(g as int)
    &&& r.up_bytes == u
    &&& r.down_offset == rounded16(rounded16(g as int) + u)
    &&& r.down_bytes == d
    &&& r.address == address
    &&& r.pending == event
    &&& r.unpacked is None
    &&& forall|i: int| 0 <= i < 3 ==> #[trigger] r.rows[i] == p.dims[i].0
    &&& forall|i: int| 0 <= i < 3 ==> #[trigger] r.cols[i] == p.dims[i].1
}

/// The expert in a slot that a load has been started into.
pub fn planned_slot(p: &PlannedExpert, slot: i32, event: i64, address: u64) -> (r: SlotExpert)
    requires
        rounded16(p.regions[0].1 as int) + p.regions[1].1 + 15 <= usize::MAX,
    ensures
        slot_of(*p, slot, event, address, r),
{
    let (up_offset, down_offset) = slot_offsets(p.regions[0].1, p.regions[1].1);
    SlotExpert {
        slot,
        gate_bytes: p.regions[0].1,
        up_offset,
        up_bytes: p.regions[1].1,
        down_offset,
        down_bytes: p.regions[2].1,
        address,
        pending: event,
        unpacked: None,
        rows: [p.dims[0].0, p.dims[1].0, p.dims[2].0],
        cols: [p.dims[0].1, p.dims[1].1, p.dims[2].1],
    }
}

/// Where the matrices of an expert are in its slot, for the device.
#[derive(Clone, Copy, Debug, PartialEq, Eq, Structural)]
pub struct SlotDescriptor {
    pub slot: i32,
    pub gate_offset: usize,
    pub gate_bytes: usize,
    pub up_offset: usize,
    pub up_bytes: usize,
    pub down_offset: usize,
    pub down_bytes: usize,
}

/// Where the matrices of an expert are in its slot. The first begins with the slot.
pub fn slot_descriptor(e: &SlotRef) -> (r: SlotDescriptor)
    ensures
        r == (SlotDescriptor {
            slot: e.slot,
            gate_offset: 0,
            gate_bytes: e.gate_bytes,
            up_offset: e.up_offset,
            up_bytes: e.up_bytes,
            down_offset: e.down_offset,
            down_bytes: e.down_bytes,
        }),
{
    SlotDescriptor {
        slot: e.slot,
        gate_offset: 0,
        gate_bytes: e.gate_bytes,
        up_offset: e.up_offset,
        up_bytes: e.up_bytes,
        down_offset: e.down_offset,
        down_bytes: e.down_bytes,
    }
}

/// The bytes of the three matrices of an expert, `raw` being those of its slot.
pub fn slot_matrices<'a>(e: &SlotRef, raw: &'a [u8]) -> (r: (&'a [u8], &'a [u8], &'a [u8]))
    requires
        e.gate_bytes <= raw.len(),
        e.up_offset + e.up_bytes <= raw.len(),
        e.down_offset + e.down_bytes <= raw.len(),
    ensures
        r.0@ == raw@.take(e.gate_bytes as int),
        r.1@ == raw@.subrange(e.up_offset as int, e.up_offset + e.up_bytes),
        r.2@ == raw@.subrange(e.down_offset as int, e.down_offset + e.down_bytes),
{
    let gate = slice_subrange(raw, 0, e.gate_bytes);
    assert(gate@ =~= raw@.take(e.gate_bytes as int));
    (
        gate,
        slice_subrange(raw, e.up_offset, e.up_offset + e.up_bytes),
        slice_subrange(raw, e.down_offset, e.down_offset + e.down_bytes),
    )
}

/// Why a planned expert could not be loaded.
#[derive(Clone, Copy, Debug, PartialEq, Eq, Structural)]
pub enum LoadFault {
    /// The model is no package.
    NoPackage,
    ShardMissing,
    Unavailable,
    NoSlot,
    /// The slot has no memory that the host can see.
    NoMemory,
    Failed,
}

/// What is to be done next for an expert that is loaded as planned.
#[derive(Clone, Copy, Debug, PartialEq, Eq, Structural)]
pub enum LoadStage {
    /// See whether the expert is resident; if it is, all is done.
    Look,
    /// See whether there is a package.
    Package,
    /// Find the shard of the expert.
    Shard,
    /// Open the shard for the device.
    Open,
    /// Start the load into a slot.
    Start,
    /// See whether the host can see the slot.
    Address,
    /// Hand a slot back that the host cannot see.
    Free,
    /// Put the expert in the cache and hand back what it pushes out.
    Insert,
    /// Wait for the load.
    Wait,
    /// Mark the expert as arrived.
    Arrived,
    Done,
    Fault(LoadFault),
}

/// What follows a stage of a load.
pub open spec fn load_after(stage: LoadStage, ok: bool) -> LoadStage {
    match stage {
        LoadStage::Look => if ok {
            LoadStage::Done
        } else {
            LoadStage::Package
        },
        LoadStage::Package => if ok {
            LoadStage::Shard
        } else {
            LoadStage::Fault(LoadFault::NoPackage)
        },
        LoadStage::Shard => if ok {
            LoadStage::Open
        } else {
            LoadStage::Fault(LoadFault::ShardMissing)
        },
        LoadStage::Open => if ok {
            LoadStage::Start
        } else {
            LoadStage::Fault(LoadFault::Unavailable)
        },
        LoadStage::Start => if ok {
            LoadStage::Address
        } else {
            LoadStage::Fault(LoadFault::NoSlot)
        },
        LoadStage::Address => if ok {
            LoadStage::Insert
        } else {
            LoadStage::Free
        },
        LoadStage::Free => LoadStage::Fault(LoadFault::NoMemory),
        LoadStage::Insert => LoadStage::Wait,
        LoadStage::Wait => if ok {
            LoadStage::Arrived
        } else {
            LoadStage::Fault(LoadFault::Failed)
        },
        LoadStage::Arrived => LoadStage::Done,
        LoadStage::Done => LoadStage::Done,
        LoadStage::Fault(f) => LoadStage::Fault(f),
    }
}

/// Goes on to the next stage of a load.
pub fn load_step(stage: LoadStage, ok: bool) -> (r: LoadStage)
    ensures
        r == load_after(stage, ok),
{
    match stage {
        LoadStage::Look => if ok {
            LoadStage::Done
        } else {
            LoadStage::Package
        },
        LoadStage::Package => if ok {
            LoadStage::Shard
        } else {
            LoadStage::Fault(LoadFault::NoPackage)
        },
        LoadStage::Shard => if ok {
            LoadStage::Open
        } else {
            LoadStage::Fault(LoadFault::ShardMissing)
        },
        LoadStage::Open => if ok {
            LoadStage::Start
        } else {
            LoadStage::Fault(LoadFault::Unavailable)
        },
        LoadStage::Start => if ok {
            LoadStage::Address
        } else {
            LoadStage::Fault(LoadFault::NoSlot)
        },
        LoadStage::Address => if ok {
            LoadStage::Insert
        } else {
            LoadStage::Free
        },
        LoadStage::Free => LoadStage::Fault(LoadFault::NoMemory),
        LoadStage::Insert => LoadStage::Wait,
        LoadStage::Wait => if ok {
            LoadStage::Arrived
        } else {
            LoadStage::Fault(LoadFault::Failed)
        },
        LoadStage::Arrived => LoadStage::Done,
        LoadStage::Done => LoadStage::Done,
        LoadStage::Fault(f) => LoadStage::Fault(f),
    }
}

/// Whether a stage of a load holds a slot that nothing else knows of.
pub open spec fn holds_slot(stage: LoadStage) -> bool {
    stage is Address || stage is Free || stage is Insert
}

/// No slot is lost: a load that holds a slot goes on until the slot is in the cache
/// or has been handed back.
pub proof fn law_no_slot_is_lost(stage: LoadStage, ok: bool)
    requires
        holds_slot(stage),
    ensures
        holds_slot(load_after(stage, ok)) || stage is Free || stage is Insert,
        !(stage is Address && load_after(stage, ok) is Fault),
{
}

/// How the shared expert is computed: all on the device where it is asked for and
/// all its matrices are four-bit codes, else with gate and up in one call where
/// that is asked for and both are.
#[derive(Clone, Copy, Debug, PartialEq, Eq, Structural)]
pub struct SharedPlan {
    pub full: bool,
    pub fused: bool,
}

/// Whether a matrix is held as four-bit codes.
pub open spec fn is_codes(w: Wt) -> bool {
    w.bytes matches Some(WtBytes::Mxfp4 { .. })
}

/// How the shared expert is computed.
pub fn shared_plan(settings: &Settings, gate: &Wt, up: &Wt, down: &Wt) -> (r: SharedPlan)
    ensures
        r.full == (switch_on(settings.value("QWEN_SHARED_MXFP4_FULL"@), true) && is_codes(*gate)
            && is_codes(*up) && is_codes(*down)),
        r.fused == (switch_on(settings.value("QWEN_SHARED_FUSED_INPUT"@), true) && is_codes(*gate)
            && is_codes(*up)),
{
    let g: bool = holds_codes(gate);
    let u: bool = holds_codes(up);
    let d: bool = holds_codes(down);
    SharedPlan {
        full: settings.on("QWEN_SHARED_MXFP4_FULL", true) && g && u && d,
        fused: settings.on("QWEN_SHARED_FUSED_INPUT", true) && g && u,
    }
}

fn holds_codes(w: &Wt) -> (r: bool)
    ensures
        r == is_codes(*w),
{
    match &w.bytes {
        Some(WtBytes::Mxfp4 { .. }) => true,
        _ => false,
    }
}

/// Every expert of a token is asked for in turn and, where there is no one event for all, waited for in
/// turn; none is passed over.
pub proof fn law_every_expert_is_brought_in_and_waited_for(run: MoeRun, i: usize)
    requires
        run.wf(),
        i < run.k,
    ensures
        run.stage == MoeStage::Issue(i) ==> run.after(true).stage == (if i + 1 < run.k {
            MoeStage::Issue((i + 1) as usize)
        } else {
            MoeStage::AskPending
        }),
        run.stage == MoeStage::Wait(i) && i + 1 < run.k ==> run.after(true).stage == MoeStage::Wait(
            (i + 1) as usize,
        ),
        run.stage == MoeStage::Wait(i) && i + 1 == run.k ==> (run.after(true).stage is Begin
            <==> run.device_overlap) && (run.after(true).stage is Run <==> !run.device_overlap),
        run.stage == MoeStage::Promote ==> run.after(true).stage == MoeStage::Issue(0),
        run.stage is AskPending && !run.batch_wait && !run.shared_overlap ==> run.after(true).stage
            == MoeStage::Wait(0),
        run.stage is AskPending ==> (run.after(true).stage is Barrier <==> run.batch_wait),
        run.stage is AskPending ==> !(run.after(false).stage is Barrier),
        run.stage is Barrier && !run.shared_overlap ==> run.after(true).stage is BatchWait
            && run.after(false).stage == MoeStage::Wait(0),
        run.stage is Barrier && run.shared_overlap ==> run.after(true).stage
            == (MoeStage::EarlyShared { batch: true }),
        run.stage == (MoeStage::EarlyShared { batch: false }) ==> run.after(true).stage
            == MoeStage::Wait(0),
        run.stage == (MoeStage::EarlyShared { batch: true }) ==> run.after(true).stage is BatchWait,
        run.stage is BatchWait ==> (run.after(true).stage is Begin <==> run.device_overlap),
{
}

/// Who makes the experts, and why: the device where its run is done, the host in every other case, and
/// the reason is that of the stage that failed first.
pub proof fn law_the_host_makes_what_the_device_does_not(run: MoeRun, ok: bool)
    requires
        run.wf(),
        !(run.stage is Output),
    ensures
        ({
            let next = run.after(ok);
            &&& next.made_by == Some(Maker::Device) && run.made_by is None <==> ok && (run.stage is Run
                || run.stage is Finish) && run.made_by is None
            &&& next.made_by == Some(Maker::Host) && run.made_by is None <==> (run.stage is Refill
                || run.stage is Fill) && run.made_by is None
            &&& run.stage is Finish && !ok ==> next.stage is Refill
            &&& !ok && (run.stage is Issue || run.stage is BatchWait || run.stage is Wait
                || run.stage is Begin || run.stage is Run) ==> next.stage is Fill
            &&& !ok && run.stage is Issue ==> next.reason is ExpertIssue
            &&& !ok && run.stage is BatchWait ==> next.reason is BatchWait
            &&& !ok && run.stage is Begin ==> next.reason is MoeBegin
            &&& (ok || run.stage is Wait || run.stage is Run || run.stage is Finish) ==> next.reason
                == run.reason
            &&& next.k == run.k && next.device_overlap == run.device_overlap
        }),
{
}

/// A token whose experts do not run on the device begins on the host; any other begins by moving up
/// what is resident, where that is asked for, or by bringing in its first expert.
pub proof fn law_where_experts_begin(
    k: usize,
    direct: bool,
    pin: bool,
    batch_wait: bool,
    shared_overlap: bool,
    device_overlap: bool,
)
    ensures
        ({
            let run = MoeRun::begun(k, direct, pin, batch_wait, shared_overlap, device_overlap);
            &&& run.stage is Fill <==> !direct
            &&& run.reason is DirectDisabled <==> !direct
            &&& run.stage is Promote <==> direct && pin
            &&& run.stage == MoeStage::Issue(0) <==> direct && !pin && k > 0
            &&& run.k == k && !run.shared && run.made_by is None
        }),
{
}

/// The matrices of a planned expert stand in its slot in the order gate, up, down, each as long as the
/// plan has it and behind the one before.
pub proof fn law_a_planned_slot_holds_gate_up_and_down(
    p: PlannedExpert,
    slot: i32,
    event: i64,
    address: u64,
    r: SlotExpert,
)
    requires
        slot_of(p, slot, event, address, r),
    ensures
        r.gate_bytes == p.regions[0].1 && r.up_bytes == p.regions[1].1 && r.down_bytes
            == p.regions[2].1,
        r.gate_bytes <= r.up_offset < r.gate_bytes + 16,
        r.up_offset + r.up_bytes <= r.down_offset < r.up_offset + r.up_bytes + 16,
        r.up_offset % 16 == 0 && r.down_offset % 16 == 0,
        r.rows[0] == p.dims[0].0 && r.cols[0] == p.dims[0].1,
        r.rows[1] == p.dims[1].0 && r.cols[1] == p.dims[1].1,
        r.rows[2] == p.dims[2].0 && r.cols[2] == p.dims[2].1,
        r.slot == slot && r.pending == event && r.address == address,
{
    law_slot_matrices_do_not_overlap(p.regions[0].1 as int, p.regions[1].1 as int);
    assert(r.rows[0] == p.dims[0].0 && r.rows[1] == p.dims[1].0 && r.rows[2] == p.dims[2].0);
    assert(r.cols[0] == p.dims[0].1 && r.cols[1] == p.dims[1].1 && r.cols[2] == p.dims[2].1);
}

/// Loading goes through all of its stages, and what fails at one is reported as what it is.
pub proof fn law_a_load_fails_where_it_fails(stage: LoadStage)
    ensures
        load_after(LoadStage::Look, true) is Done,
        load_after(LoadStage::Look, false) is Package,
        load_after(LoadStage::Package, true) is Shard,
        load_after(LoadStage::Shard, true) is Open,
        load_after(LoadStage::Open, true) is Start,
        load_after(LoadStage::Start, true) is Address,
        load_after(LoadStage::Address, true) is Insert,
        load_after(LoadStage::Address, false) is Free,
        load_after(LoadStage::Insert, true) is Wait,
        load_after(LoadStage::Wait, true) is Arrived,
        load_after(LoadStage::Arrived, true) is Done,
        load_after(LoadStage::Package, false) == LoadStage::Fault(LoadFault::NoPackage),
        load_after(LoadStage::Shard, false) == LoadStage::Fault(LoadFault::ShardMissing),
        load_after(LoadStage::Open, false) == LoadStage::Fault(LoadFault::Unavailable),
        load_after(LoadStage::Start, false) == LoadStage::Fault(LoadFault::NoSlot),
        load_after(LoadStage::Free, true) == LoadStage::Fault(LoadFault::NoMemory),
        load_after(LoadStage::Wait, false) == LoadStage::Fault(LoadFault::Failed),
        stage is Done || stage is Fault ==> load_after(stage, true) == stage && load_after(
            stage,
            false,
        ) == stage,
{
}

} // verus!
