//! What the capture workers share: the manual-reset event, the little-endian
//! readers for the kernel's fixed layouts, and one turn of a worker's loop.
//!
//! A worker sleeps until its data source is set up, started, stopped or flushed,
//! or its interval has passed. Each turn then says what is to be done, in order:
//! a stop or a flush is acknowledged only when what was captured before it was
//! drained, and, where the capture holds its data back, emitted.

use crate::bytes;
use crate::bytes::{read_le_u32, read_le_u64, u32_as_i32};
use vstd::prelude::*;

verus! {

/// Little-endian u64 at byte offset `off`.
pub fn read_u64(b: &[u8], off: usize) -> (v: u64)
    requires
        off + 8 <= b@.len(),
    ensures
        v == bytes::le_u64(b@, off as int),
{
    read_le_u64(b, off)
}

/// Little-endian i32 at byte offset `off`.
pub fn read_i32(b: &[u8], off: usize) -> (v: i32)
    requires
        off + 4 <= b@.len(),
    ensures
        v == bytes::bits_to_i32(bytes::le_u32(b@, off as int) as int),
{
    u32_as_i32(read_le_u32(b, off))
}

/// A manual-reset event. Callbacks `set` it to wake the worker; the worker `reset`s
/// it at the top of a turn and waits at the bottom, so that a `set` in between is
/// not lost.
pub struct Event {
    pub signaled: bool,
}

impl Event {
    pub fn new() -> (e: Self)
        ensures
            !e.signaled,
    {
        Event { signaled: false }
    }

    pub fn set(&mut self)
        ensures
            final(self).signaled,
    {
        self.signaled = true;
    }

    pub fn reset(&mut self)
        ensures
            !final(self).signaled,
    {
        self.signaled = false;
    }

    /// Whether a wait returns now.
    pub fn wait(&self) -> (ready: bool)
        ensures
            ready == self.signaled,
    {
        self.signaled
    }

    /// How many nanoseconds a wait of at most `dur_ns` may still take.
    pub fn wait_timeout(&self, dur_ns: u64) -> (left: u64)
        ensures
            left == (if self.signaled {
                0
            } else {
                dur_ns
            }),
    {
        if self.signaled {
            0
        } else {
            dur_ns
        }
    }
}

impl Default for Event {
    fn default() -> (e: Self)
        ensures
            !e.signaled,
    {
        Event::new()
    }
}

/// One look at the top of a worker, before it is set up: whether it goes on, once
/// the set-up has arrived or the exit was asked for; None where it has to wait, for
/// which the event is reset.
pub fn wait_for_setup(
    wakeup: &mut Event,
    exit_requested: bool,
    setup_received: bool,
) -> (goes_on: Option<bool>)
    ensures
        goes_on == (if exit_requested || setup_received {
            Some(!exit_requested)
        } else {
            None
        }),
        final(wakeup).signaled == (old(wakeup).signaled && (exit_requested || setup_received)),
{
    if exit_requested || setup_received {
        return Some(!exit_requested);
    }
    wakeup.reset();
    None
}

/// What a worker is to do.
#[derive(Clone, Copy, PartialEq, Eq, Structural, Debug)]
pub enum WorkerAction {
    /// Take in what was captured.
    Drain,
    /// Emit what was gathered.
    Emit,
    /// Acknowledge the flush with this handle.
    FlushDone(u64),
    /// Let the target go, so that it stops producing.
    Detach,
    /// Say how much was dropped.
    ReportDropped,
    /// Acknowledge the stop with this handle.
    StopDone(u64),
}

/// How a worker rests after a turn.
#[derive(Clone, Copy, PartialEq, Eq, Structural, Debug)]
pub enum Rest {
    /// Not at all: it exits.
    Exit,
    /// Until it is woken, or this many nanoseconds have passed.
    Poll(u64),
    /// Until it is woken.
    Block,
}

/// The run state of a worker, which the data source's callbacks change.
pub struct Worker {
    pub wakeup: Event,
    pub running: bool,
    pub exit_requested: bool,
    pub setup_received: bool,
    /// The handle of the stop that is to be acknowledged; 0 for none.
    pub stopper: u64,
    /// The handle of the flush that is to be acknowledged; 0 for none.
    pub flusher: u64,
}

/// A handle's action, where there is a handle.
pub open spec fn done(handle: u64, a: WorkerAction) -> Seq<WorkerAction> {
    if handle != 0 {
        seq![a]
    } else {
        seq![]
    }
}

pub open spec fn drains(now: bool) -> Seq<WorkerAction> {
    if now {
        seq![WorkerAction::Drain]
    } else {
        seq![]
    }
}

/// One turn of a worker that emits while it samples.
pub open spec fn cpu_actions(running: bool, stopper: u64) -> Seq<WorkerAction> {
    drains(running) + done(stopper, WorkerAction::StopDone(stopper))
}

/// One turn of the scheduler's worker: it drains once more before it stops, unless
/// its set-up failed.
pub open spec fn sched_actions(running: bool, setup_failed: bool, stopper: u64) -> Seq<
    WorkerAction,
> {
    drains(running && !setup_failed) + drains(stopper != 0 && !setup_failed) + done(
        stopper,
        WorkerAction::StopDone(stopper),
    )
}

/// One turn of the heap's worker: it emits on a flush and on a stop.
pub open spec fn heap_actions(running: bool, ctrl_open: bool, flusher: u64, stopper: u64) -> Seq<
    WorkerAction,
> {
    drains(running) + (if flusher != 0 {
        seq![WorkerAction::Drain, WorkerAction::Emit, WorkerAction::FlushDone(flusher)]
    } else {
        seq![]
    }) + (if stopper != 0 && ctrl_open {
        seq![WorkerAction::Detach]
    } else {
        seq![]
    }) + (if stopper != 0 {
        seq![
            WorkerAction::Drain,
            WorkerAction::ReportDropped,
            WorkerAction::Emit,
            WorkerAction::StopDone(stopper),
        ]
    } else {
        seq![]
    })
}

/// One turn of a worker whose set-up failed: it only acknowledges.
pub open spec fn park_actions(flusher: u64, stopper: u64) -> Seq<WorkerAction> {
    done(flusher, WorkerAction::FlushDone(flusher)) + done(stopper, WorkerAction::StopDone(stopper))
}

impl Worker {
    pub fn new() -> (w: Self)
        ensures
            !w.wakeup.signaled,
            !w.running,
            !w.exit_requested,
            !w.setup_received,
            w.stopper == 0,
            w.flusher == 0,
    {
        Worker {
            wakeup: Event::new(),
            running: false,
            exit_requested: false,
            setup_received: false,
            stopper: 0,
            flusher: 0,
        }
    }

    pub fn on_setup(&mut self)
        ensures
            *final(self) == (Worker {
                wakeup: Event { signaled: true },
                setup_received: true,
                ..*old(self)
            }),
    {
        self.setup_received = true;
        self.wakeup.set();
    }

    pub fn on_start(&mut self)
        ensures
            *final(self) == (Worker {
                wakeup: Event { signaled: true },
                running: true,
                ..*old(self)
            }),
    {
        self.running = true;
        self.wakeup.set();
    }

    /// A stop with no handle only wakes the worker.
    pub fn on_stop(&mut self, stopper: u64)
        ensures
            *final(self) == (Worker {
                wakeup: Event { signaled: true },
                stopper: if stopper != 0 {
                    stopper
                } else {
                    old(self).stopper
                },
                ..*old(self)
            }),
    {
        if stopper != 0 {
            self.stopper = stopper;
        }
        self.wakeup.set();
    }

    /// A flush with no handle only wakes the worker.
    pub fn on_flush(&mut self, flusher: u64)
        ensures
            *final(self) == (Worker {
                wakeup: Event { signaled: true },
                flusher: if flusher != 0 {
                    flusher
                } else {
                    old(self).flusher
                },
                ..*old(self)
            }),
    {
        if flusher != 0 {
            self.flusher = flusher;
        }
        self.wakeup.set();
    }

    pub fn shutdown(&mut self)
        ensures
            *final(self) == (Worker {
                wakeup: Event { signaled: true },
                exit_requested: true,
                ..*old(self)
            }),
    {
        self.exit_requested = true;
        self.wakeup.set();
    }

    /// The state of the worker after a turn in which the stop, and the flush where
    /// `flushes`, were taken up.
    pub open spec fn turned(self, flushes: bool) -> Worker {
        Worker {
            wakeup: Event { signaled: false },
            running: self.running && self.stopper == 0,
            stopper: 0,
            flusher: if flushes {
                0
            } else {
                self.flusher
            },
            ..self
        }
    }

    /// The state after a turn in which the worker only saw that it has to exit.
    pub open spec fn left(self) -> Worker {
        Worker { wakeup: Event { signaled: false }, ..self }
    }

    /// Take up the stop that is pending.
    fn take_stopper(&mut self) -> (s: u64)
        ensures
            s == old(self).stopper,
            *final(self) == (Worker {
                stopper: 0,
                running: old(self).running && s == 0,
                ..*old(self)
            }),
    {
        let s: u64 = self.stopper;
        self.stopper = 0;
        if s != 0 {
            self.running = false;
        }
        s
    }

    /// One turn of a worker that emits while it samples; None once it has to exit.
    pub fn cpu_turn(&mut self) -> (r: Option<Vec<WorkerAction>>)
        ensures
            r is None <==> old(self).exit_requested,
            r is None ==> *final(self) == old(self).left(),
            r matches Some(v) ==> {
                &&& v@ == cpu_actions(old(self).running, old(self).stopper)
                &&& *final(self) == old(self).turned(false)
            },
    {
        self.wakeup.reset();
        if self.exit_requested {
            return None;
        }
        let mut v: Vec<WorkerAction> = Vec::new();
        if self.running {
            v.push(WorkerAction::Drain);
        }
        let s: u64 = self.take_stopper();
        if s != 0 {
            v.push(WorkerAction::StopDone(s));
        }
        assert(v@ =~= cpu_actions(old(self).running, old(self).stopper));
        Some(v)
    }

    /// One turn of the scheduler's worker; None once it has to exit.
    pub fn sched_turn(&mut self, setup_failed: bool) -> (r: Option<Vec<WorkerAction>>)
        ensures
            r is None <==> old(self).exit_requested,
            r is None ==> *final(self) == old(self).left(),
            r matches Some(v) ==> {
                &&& v@ == sched_actions(old(self).running, setup_failed, old(self).stopper)
                &&& *final(self) == old(self).turned(false)
            },
    {
        self.wakeup.reset();
        if self.exit_requested {
            return None;
        }
        let mut v: Vec<WorkerAction> = Vec::new();
        if self.running && !setup_failed {
            v.push(WorkerAction::Drain);
        }
        let s: u64 = self.take_stopper();
        if s != 0 {
            if !setup_failed {
                v.push(WorkerAction::Drain);
            }
            v.push(WorkerAction::StopDone(s));
        }
        assert(v@ =~= sched_actions(old(self).running, setup_failed, old(self).stopper));
        Some(v)
    }

    /// One turn of the heap's worker; None once it has to exit. `ctrl_open` says
    /// whether the target is still attached.
    pub fn heap_turn(&mut self, ctrl_open: &mut bool) -> (r: Option<Vec<WorkerAction>>)
        ensures
            r is None <==> old(self).exit_requested,
            r is None ==> *final(self) == old(self).left() && *final(ctrl_open) == *old(ctrl_open),
            r matches Some(v) ==> {
                &&& v@ == heap_actions(
                    old(self).running,
                    *old(ctrl_open),
                    old(self).flusher,
                    old(self).stopper,
                )
                &&& *final(self) == old(self).turned(true)
                &&& *final(ctrl_open) == (*old(ctrl_open) && old(self).stopper == 0)
            },
    {
        self.wakeup.reset();
        if self.exit_requested {
            return None;
        }
        let mut v: Vec<WorkerAction> = Vec::new();
        if self.running {
            v.push(WorkerAction::Drain);
        }
        let f: u64 = self.flusher;
        self.flusher = 0;
        if f != 0 {
            v.push(WorkerAction::Drain);
            v.push(WorkerAction::Emit);
            v.push(WorkerAction::FlushDone(f));
        }
        let s: u64 = self.take_stopper();
        if s != 0 {
            if *ctrl_open {
                v.push(WorkerAction::Detach);
                *ctrl_open = false;
            }
            v.push(WorkerAction::Drain);
            v.push(WorkerAction::ReportDropped);
            v.push(WorkerAction::Emit);
            v.push(WorkerAction::StopDone(s));
        }
        assert(v@ =~= heap_actions(
            old(self).running,
            *old(ctrl_open),
            old(self).flusher,
            old(self).stopper,
        ));
        Some(v)
    }

    /// One turn of a worker whose set-up failed; None once it has to exit.
    pub fn park_turn(&mut self) -> (r: Option<Vec<WorkerAction>>)
        ensures
            r is None <==> old(self).exit_requested,
            r is None ==> *final(self) == old(self).left(),
            r matches Some(v) ==> {
                &&& v@ == park_actions(old(self).flusher, old(self).stopper)
                &&& *final(self) == old(self).turned(true)
            },
    {
        self.wakeup.reset();
        if self.exit_requested {
            return None;
        }
        let mut v: Vec<WorkerAction> = Vec::new();
        let f: u64 = self.flusher;
        self.flusher = 0;
        if f != 0 {
            v.push(WorkerAction::FlushDone(f));
        }
        let s: u64 = self.take_stopper();
        if s != 0 {
            v.push(WorkerAction::StopDone(s));
        }
        assert(v@ =~= park_actions(old(self).flusher, old(self).stopper));
        Some(v)
    }

    /// How the worker rests once its actions were done: it polls while it runs.
    pub fn rest(&self, interval_ns: u64) -> (r: Rest)
        ensures
            r == (if self.exit_requested {
                Rest::Exit
            } else if self.running {
                Rest::Poll(interval_ns)
            } else {
                Rest::Block
            }),
    {
        if self.exit_requested {
            Rest::Exit
        } else if self.running {
            Rest::Poll(interval_ns)
        } else {
            Rest::Block
        }
    }
}

/// Whether an action acknowledges a stop.
pub open spec fn acks_stop(a: WorkerAction) -> bool {
    a is StopDone
}

/// A stop is acknowledged exactly once, and last: nothing is drained or emitted
/// after it. With no stop pending none is acknowledged.
pub proof fn lemma_stop_is_answered_last(
    running: bool,
    setup_failed: bool,
    ctrl_open: bool,
    flusher: u64,
    stopper: u64,
)
    ensures
        forall|v: Seq<WorkerAction>, i: int|
            (v == cpu_actions(running, stopper) || v == sched_actions(
                running,
                setup_failed,
                stopper,
            ) || v == heap_actions(running, ctrl_open, flusher, stopper) || v == park_actions(
                flusher,
                stopper,
            )) && 0 <= i < v.len() ==> (#[trigger] acks_stop(v[i]) == (stopper != 0 && i == v.len()
                - 1)),
        stopper != 0 ==> cpu_actions(running, stopper).last() == WorkerAction::StopDone(stopper),
        stopper != 0 ==> sched_actions(running, setup_failed, stopper).last()
            == WorkerAction::StopDone(stopper),
        stopper != 0 ==> heap_actions(running, ctrl_open, flusher, stopper).last()
            == WorkerAction::StopDone(stopper),
        stopper != 0 ==> park_actions(flusher, stopper).last() == WorkerAction::StopDone(stopper),
{
}

/// Before the heap's worker acknowledges a stop or a flush it has drained the ring
/// and emitted the profile: directly before.
pub proof fn lemma_heap_emits_before_it_answers(
    running: bool,
    ctrl_open: bool,
    flusher: u64,
    stopper: u64,
    i: int,
)
    requires
        0 <= i < heap_actions(running, ctrl_open, flusher, stopper).len(),
    ensures
        ({
            let v = heap_actions(running, ctrl_open, flusher, stopper);
            v[i] is StopDone || v[i] is FlushDone ==> i >= 2 && v[i - 1] == WorkerAction::Emit
                && exists|j: int| i - 3 <= j < i && 0 <= j && v[j] == WorkerAction::Drain
        }),
{
    let v = heap_actions(running, ctrl_open, flusher, stopper);
    if v[i] is StopDone {
        assert(v[i - 3] == WorkerAction::Drain);
    } else if v[i] is FlushDone {
        assert(v[i - 2] == WorkerAction::Drain);
    }
}

/// The heap's worker lets the target go at most once: on the first stop, after
/// which it is not attached any more.
pub proof fn lemma_detaches_once(running: bool, ctrl_open: bool, flusher: u64, stopper: u64)
    ensures
        heap_actions(running, ctrl_open, flusher, stopper).contains(WorkerAction::Detach) <==> (
        ctrl_open && stopper != 0),
{
    let v = heap_actions(running, ctrl_open, flusher, stopper);
    if ctrl_open && stopper != 0 {
        assert(v[v.len() - 5] == WorkerAction::Detach);
    }
}

/// The captures that look into a target process.
#[derive(Clone, Copy, PartialEq, Eq, Structural, Debug)]
pub enum CaptureKind {
    Cpu,
    Heap,
}

/// The steps by which such a capture's worker comes to its turns.
#[derive(Clone, Copy, PartialEq, Eq, Structural, Debug)]
pub enum LaunchStep {
    /// Wait for the set-up; it fails where the worker is to leave first.
    AwaitSetup,
    /// See which process is meant.
    ResolveTarget,
    OpenTask,
    CreateSymbolizer,
    LoadModules,
    CreateRing,
    /// Hand the ring to the target.
    Attach,
    /// Take the capture's turns.
    Main,
    /// Answer stops and flushes, and do nothing else.
    Park,
    Leave,
}

/// The step after one that went well, or did not.
pub open spec fn launch_after(kind: CaptureKind, step: LaunchStep, ok: bool) -> LaunchStep {
    match step {
        LaunchStep::AwaitSetup => if ok {
            LaunchStep::ResolveTarget
        } else {
            LaunchStep::Leave
        },
        LaunchStep::ResolveTarget => if ok {
            LaunchStep::OpenTask
        } else {
            LaunchStep::Park
        },
        LaunchStep::OpenTask => if !ok {
            LaunchStep::Park
        } else if kind == CaptureKind::Heap {
            LaunchStep::CreateSymbolizer
        } else {
            LaunchStep::LoadModules
        },
        LaunchStep::CreateSymbolizer => if ok {
            LaunchStep::LoadModules
        } else {
            LaunchStep::Park
        },
        LaunchStep::LoadModules => if !ok {
            LaunchStep::Park
        } else if kind == CaptureKind::Heap {
            LaunchStep::CreateRing
        } else {
            LaunchStep::Main
        },
        LaunchStep::CreateRing => if ok {
            LaunchStep::Attach
        } else {
            LaunchStep::Park
        },
        LaunchStep::Attach => if ok {
            LaunchStep::Main
        } else {
            LaunchStep::Park
        },
        LaunchStep::Main => LaunchStep::Leave,
        LaunchStep::Park => LaunchStep::Leave,
        LaunchStep::Leave => LaunchStep::Leave,
    }
}

/// A worker on its way to its turns.
#[derive(Clone, Copy, PartialEq, Eq, Structural, Debug)]
pub struct Launch {
    pub kind: CaptureKind,
    pub step: LaunchStep,
}

impl Launch {
    pub fn new(kind: CaptureKind) -> (r: Self)
        ensures
            r == (Launch { kind, step: LaunchStep::AwaitSetup }),
    {
        Launch { kind, step: LaunchStep::AwaitSetup }
    }

    /// The step was taken: `ok` says whether it went well.
    pub fn advance(&mut self, ok: bool)
        ensures
            final(self).kind == old(self).kind,
            final(self).step == launch_after(old(self).kind, old(self).step, ok),
    {
        let heap: bool = self.kind == CaptureKind::Heap;
        let next: LaunchStep = match self.step {
            LaunchStep::AwaitSetup => if ok {
                LaunchStep::ResolveTarget
            } else {
                LaunchStep::Leave
            },
            LaunchStep::Main | LaunchStep::Park | LaunchStep::Leave => LaunchStep::Leave,
            step => if !ok {
                LaunchStep::Park
            } else {
                match step {
                    LaunchStep::ResolveTarget => LaunchStep::OpenTask,
                    LaunchStep::OpenTask => if heap {
                        LaunchStep::CreateSymbolizer
                    } else {
                        LaunchStep::LoadModules
                    },
                    LaunchStep::CreateSymbolizer => LaunchStep::LoadModules,
                    LaunchStep::LoadModules => if heap {
                        LaunchStep::CreateRing
                    } else {
                        LaunchStep::Main
                    },
                    LaunchStep::CreateRing => LaunchStep::Attach,
                    _ => LaunchStep::Main,
                }
            },
        };
        self.step = next;
    }
}

/// The step after `n` steps, of which `oks` says how each went.
pub open spec fn launch_reached(kind: CaptureKind, oks: Seq<bool>, n: nat) -> LaunchStep
    decreases n,
{
    if n == 0 {
        LaunchStep::AwaitSetup
    } else {
        launch_after(kind, launch_reached(kind, oks, (n - 1) as nat), oks[n - 1])
    }
}

/// How many steps lead to a capture's turns.
pub open spec fn launch_steps(kind: CaptureKind) -> nat {
    match kind {
        CaptureKind::Cpu => 4,
        CaptureKind::Heap => 7,
    }
}

/// A worker comes to its turns exactly when every step before them went well.
pub proof fn lemma_turns_iff_all_went_well(kind: CaptureKind, oks: Seq<bool>)
    requires
        oks.len() == launch_steps(kind),
    ensures
        launch_reached(kind, oks, launch_steps(kind)) == LaunchStep::Main <==> forall|i: int|
            0 <= i < oks.len() ==> #[trigger] oks[i],
{
    reveal_with_fuel(launch_reached, 8);
    if launch_reached(kind, oks, launch_steps(kind)) == LaunchStep::Main {
        assert forall|i: int| 0 <= i < oks.len() implies #[trigger] oks[i] by {}
    } else {
        assert(exists|i: int| 0 <= i < oks.len() && !#[trigger] oks[i]) by {
            assert(!oks[0] || !oks[1] || !oks[2] || !oks[3] || kind == CaptureKind::Heap && (
            !oks[4] || !oks[5] || !oks[6]));
        }
    }
}

/// A worker that was set up never leaves because a step failed: it parks, where it
/// still answers a stop.
pub proof fn lemma_failed_worker_parks(kind: CaptureKind, step: LaunchStep)
    requires
        step != LaunchStep::AwaitSetup,
        step != LaunchStep::Main,
        step != LaunchStep::Park,
        step != LaunchStep::Leave,
    ensures
        launch_after(kind, step, false) == LaunchStep::Park,
        launch_after(kind, step, true) != LaunchStep::Leave,
{
}

} // verus!
