//! Off-CPU samples. When a thread wakes from a long wait the kernel logs how long
//! it waited, and then its callstack. The two are put together by thread.

use crate::mach;
use crate::mach::{ticks_to_ns, TimebaseInfo};
use crate::sched::perf_emitter;
use crate::sched::perf_emitter::{DecodedStack, Module, PerfEmitter};
use crate::sched::ring;
use crate::sched::ring::KdEvent;
use crate::sched::user_stacks;
use crate::sched::user_stacks::UserStacks;
use std::collections::HashMap;
use vstd::prelude::*;
use vstd::string::*;

verus! {

pub const DBG_PERF: u32 = 0x25;

pub const PERF_THREADINFO: u32 = 1;

pub const PERF_TI_DATA: u32 = 1;

pub const PERF_CALLSTACK: u32 = 2;

pub const PERF_CS_KDATA: u32 = 3;

pub const PERF_CS_UDATA: u32 = 4;

pub const PERF_CS_KHDR: u32 = 5;

pub const PERF_CS_UHDR: u32 = 6;

pub const PERF_TIMER: u32 = 3;

pub const PERF_TM_FIRE: u32 = 0;

pub const PERF_LAZY: u32 = 9;

pub const PERF_LZ_WAITSAMPLE: u32 = 1;

/// What an event of the sampler says.
#[derive(Clone, Copy, PartialEq, Eq, Structural, Debug)]
pub enum PerfEvent {
    /// A timer fired while the thread ran.
    TimerFire,
    /// The thread woke from a wait.
    WaitSample,
    ThreadInfo,
    KernelHeader,
    KernelData,
    UserHeader,
    UserData,
    Other,
}

pub open spec fn meaning(debugid: u32) -> PerfEvent {
    let class = ring::class_of(debugid);
    let subclass = ring::subclass_of(debugid);
    let code = ring::code_of(debugid);
    if class != DBG_PERF {
        PerfEvent::Other
    } else if subclass == PERF_TIMER && code == PERF_TM_FIRE {
        PerfEvent::TimerFire
    } else if subclass == PERF_LAZY && code == PERF_LZ_WAITSAMPLE {
        PerfEvent::WaitSample
    } else if subclass == PERF_THREADINFO && code == PERF_TI_DATA {
        PerfEvent::ThreadInfo
    } else if subclass == PERF_CALLSTACK && code == PERF_CS_KHDR {
        PerfEvent::KernelHeader
    } else if subclass == PERF_CALLSTACK && code == PERF_CS_KDATA {
        PerfEvent::KernelData
    } else if subclass == PERF_CALLSTACK && code == PERF_CS_UHDR {
        PerfEvent::UserHeader
    } else if subclass == PERF_CALLSTACK && code == PERF_CS_UDATA {
        PerfEvent::UserData
    } else {
        PerfEvent::Other
    }
}

pub fn perf_event(e: &KdEvent) -> (p: PerfEvent)
    ensures
        p == meaning(e.debugid),
{
    if e.class() != DBG_PERF {
        return PerfEvent::Other;
    }
    let subclass: u32 = e.subclass();
    let code: u32 = e.code();
    if subclass == PERF_TIMER && code == PERF_TM_FIRE {
        PerfEvent::TimerFire
    } else if subclass == PERF_LAZY && code == PERF_LZ_WAITSAMPLE {
        PerfEvent::WaitSample
    } else if subclass == PERF_THREADINFO && code == PERF_TI_DATA {
        PerfEvent::ThreadInfo
    } else if subclass == PERF_CALLSTACK && code == PERF_CS_KHDR {
        PerfEvent::KernelHeader
    } else if subclass == PERF_CALLSTACK && code == PERF_CS_KDATA {
        PerfEvent::KernelData
    } else if subclass == PERF_CALLSTACK && code == PERF_CS_UHDR {
        PerfEvent::UserHeader
    } else if subclass == PERF_CALLSTACK && code == PERF_CS_UDATA {
        PerfEvent::UserData
    } else {
        PerfEvent::Other
    }
}

/// The four addresses that a piece of a callstack holds.
pub open spec fn pcs_of(e: KdEvent) -> Seq<u64> {
    seq![e.arg1, e.arg2, e.arg3, e.arg4]
}

/// A thread's callstack where it blocked, leaf first, and for how long.
pub struct OffCpuSample {
    pub pid: u64,
    pub tid: u64,
    pub cpu: u32,
    pub ts_ticks: u64,
    pub wait_ns: u64,
    pub frames: Vec<u64>,
}

#[verifier::ext_equal]
pub struct OffCpuView {
    pub pid: u64,
    pub tid: u64,
    pub cpu: u32,
    pub ts_ticks: u64,
    pub wait_ns: u64,
    pub frames: Seq<u64>,
}

impl View for OffCpuSample {
    type V = OffCpuView;

    open spec fn view(&self) -> OffCpuView {
        OffCpuView {
            pid: self.pid,
            tid: self.tid,
            cpu: self.cpu,
            ts_ticks: self.ts_ticks,
            wait_ns: self.wait_ns,
            frames: self.frames@,
        }
    }
}

/// The state of the decoder, as plain values: the wait of each thread that has
/// woken, with the time, in ticks; and the callstacks.
#[verifier::ext_equal]
pub struct LazyView {
    pub pending_wait: Map<u64, (u64, u64)>,
    pub stacks: user_stacks::StacksView,
}

pub struct LazyDecoder {
    pub pending_wait: HashMap<u64, (u64, u64)>,
    pub stacks: UserStacks,
    pub tb: TimebaseInfo,
}

impl View for LazyDecoder {
    type V = LazyView;

    open spec fn view(&self) -> LazyView {
        LazyView { pending_wait: self.pending_wait@, stacks: self.stacks@ }
    }
}

/// What an event does: the state after it, and a sample where a callstack became
/// whole whose thread has woken from a wait.
pub open spec fn lazy_step(s: LazyView, tb: TimebaseInfo, e: KdEvent) -> (LazyView, Option<
    OffCpuView,
>) {
    let tid = e.arg5;
    match meaning(e.debugid) {
        PerfEvent::WaitSample => (
            LazyView { pending_wait: s.pending_wait.insert(tid, (e.arg1, e.timestamp)), ..s },
            None,
        ),
        PerfEvent::ThreadInfo => (
            LazyView {
                stacks: user_stacks::StacksView {
                    pid_of: s.stacks.pid_of.insert(tid, e.arg1),
                    ..s.stacks
                },
                ..s
            },
            None,
        ),
        PerfEvent::UserHeader => (
            LazyView {
                stacks: user_stacks::StacksView {
                    building: s.stacks.building.insert(tid, user_stacks::after_header(e.arg2)),
                    ..s.stacks
                },
                ..s
            },
            None,
        ),
        PerfEvent::UserData => {
            let u = user_stacks::udata(s.stacks, tid, pcs_of(e));
            match u.1 {
                None => (LazyView { stacks: u.0, ..s }, None),
                Some(done) => if s.pending_wait.dom().contains(tid) {
                    let wait = s.pending_wait[tid];
                    (
                        LazyView { pending_wait: s.pending_wait.remove(tid), stacks: u.0 },
                        Some(
                            OffCpuView {
                                pid: done.0,
                                tid,
                                cpu: e.cpuid,
                                ts_ticks: wait.1,
                                wait_ns: mach::scaled(wait.0, tb.numer, tb.denom),
                                frames: done.1,
                            },
                        ),
                    )
                } else {
                    (LazyView { stacks: u.0, ..s }, None)
                },
            }
        },
        _ => (s, None),
    }
}

impl LazyDecoder {
    pub fn new(tb: TimebaseInfo) -> (d: Self)
        requires
            tb.wf(),
        ensures
            d.tb == tb,
            d@ == (LazyView {
                pending_wait: Map::empty(),
                stacks: user_stacks::no_stacks(),
            }),
    {
        let d = LazyDecoder { pending_wait: HashMap::new(), stacks: UserStacks::new(), tb };
        assert(d@.pending_wait =~= Map::empty());
        d
    }

    /// Take in an event; a sample where one became whole.
    pub fn on_event(&mut self, e: &KdEvent) -> (r: Option<OffCpuSample>)
        requires
            old(self).tb.wf(),
        ensures
            final(self).tb == old(self).tb,
            ({
                let t = lazy_step(old(self)@, old(self).tb, *e);
                &&& final(self)@ == t.0
                &&& r is Some <==> t.1 is Some
                &&& r matches Some(s) ==> t.1 == Some(s@)
            }),
    {
        let ghost before = self@;
        let tid: u64 = e.arg5;
        match perf_event(e) {
            PerfEvent::WaitSample => {
                self.pending_wait.insert(tid, (e.arg1, e.timestamp));
                None
            },
            PerfEvent::ThreadInfo => {
                self.stacks.on_threadinfo(tid, e.arg1);
                None
            },
            PerfEvent::UserHeader => {
                self.stacks.on_uhdr(tid, e.arg2);
                None
            },
            PerfEvent::UserData => {
                let pcs: [u64; 4] = [e.arg1, e.arg2, e.arg3, e.arg4];
                assert(pcs@ =~= pcs_of(*e));
                match self.stacks.on_udata(tid, pcs) {
                    None => None,
                    Some((pid, frames)) => match self.pending_wait.remove(&tid) {
                        None => {
                            assert(self@.pending_wait =~= before.pending_wait);
                            None
                        },
                        Some((wait_ticks, ts_ticks)) => Some(
                            OffCpuSample {
                                pid,
                                tid,
                                cpu: e.cpuid,
                                ts_ticks,
                                wait_ns: ticks_to_ns(wait_ticks, self.tb),
                                frames,
                            },
                        ),
                    },
                }
            },
            _ => None,
        }
    }
}

/// A callstack whose thread has not woken from a wait gives no sample: a wait gives
/// one sample at most.
pub proof fn lemma_wait_gives_one_sample(s: LazyView, tb: TimebaseInfo, e: KdEvent)
    ensures
        lazy_step(s, tb, e).1 is Some ==> {
            &&& s.pending_wait.dom().contains(e.arg5)
            &&& !lazy_step(s, tb, e).0.pending_wait.dom().contains(e.arg5)
        },
{
}

/// An event of one thread leaves what is known of another.
pub proof fn lemma_threads_are_apart(s: LazyView, tb: TimebaseInfo, e: KdEvent, tid: u64)
    requires
        e.arg5 != tid,
    ensures
        ({
            let n = lazy_step(s, tb, e).0;
            &&& n.pending_wait.dom().contains(tid) == s.pending_wait.dom().contains(tid)
            &&& s.pending_wait.dom().contains(tid) ==> n.pending_wait[tid] == s.pending_wait[tid]
            &&& n.stacks.building.dom().contains(tid) == s.stacks.building.dom().contains(tid)
            &&& s.stacks.building.dom().contains(tid) ==> n.stacks.building[tid]
                == s.stacks.building[tid]
            &&& user_stacks::pid_or_zero(n.stacks, tid) == user_stacks::pid_or_zero(s.stacks, tid)
        }),
{
}

/// Emits off-CPU samples on their own sequence, weighted by how long they waited.
pub struct OffCpuEmitter {
    pub emitter: PerfEmitter,
}

/// The sample as the emitter takes it: it has no kernel frames.
pub open spec fn decoded(s: OffCpuView) -> perf_emitter::DecodedView {
    perf_emitter::DecodedView {
        pid: s.pid,
        tid: s.tid,
        cpu: s.cpu,
        ts_ticks: s.ts_ticks,
        frames: s.frames,
        kernel_frames: Seq::empty(),
    }
}

/// The sample as the emitter takes it, and its weight.
pub fn decoded_stack(s: OffCpuSample) -> (r: (DecodedStack, u64))
    ensures
        r.0@ == decoded(s@),
        r.1 == s.wait_ns,
{
    let d = DecodedStack {
        pid: s.pid,
        tid: s.tid,
        cpu: s.cpu,
        ts_ticks: s.ts_ticks,
        frames: s.frames,
        kernel_frames: Vec::new(),
    };
    assert(d@ =~= decoded(s@));
    (d, s.wait_ns)
}

impl OffCpuEmitter {
    pub fn new(modules: Vec<Module>, tb: TimebaseInfo) -> (e: Self)
        requires
            tb.wf(),
        ensures
            e.emitter.wf(),
            e.emitter.timebase_name@ == "off-cpu-ns".spec_bytes(),
            e.emitter.modules == modules,
            e.emitter.need_defaults,
            e.emitter.tb == tb,
            e.emitter.since_reload == 0,
    {
        OffCpuEmitter { emitter: PerfEmitter::new("off-cpu-ns".as_bytes(), modules, tb) }
    }

    /// Start a new sequence with the next sample.
    pub fn mark_needs_defaults(&mut self)
        ensures
            final(self).emitter == (PerfEmitter { need_defaults: true, ..old(self).emitter }),
    {
        self.emitter.mark_needs_defaults();
    }

    /// The packets of a sample.
    pub fn emit(&mut self, s: OffCpuSample) -> (r: Vec<Vec<u8>>)
        requires
            old(self).emitter.wf(),
            old(self).emitter.room_for(decoded(s@)),
        ensures
            final(self).emitter.wf(),
            ({
                let e = old(self).emitter;
                let i = perf_emitter::stack_step(e.tables(), e.modules@, decoded(s@));
                &&& final(self).emitter.interner@ == i.state
                &&& crate::intern::rows(r@) == perf_emitter::emitted(
                    e.need_defaults,
                    e.timebase_name@,
                    perf_emitter::sample_packet(
                        mach::stamp(s.ts_ticks, e.tb),
                        decoded(s@),
                        i,
                        s.wait_ns,
                    ),
                )
            }),
            final(self).emitter == (PerfEmitter {
                interner: final(self).emitter.interner,
                need_defaults: false,
                ..old(self).emitter
            }),
    {
        let (d, weight) = decoded_stack(s);
        self.emitter.emit(&d, weight)
    }
}

/// What an event of the sampler says, by its debug id without the two bits that tell the
/// start of something from its end.
pub proof fn lemma_meaning_by_id(d: u32)
    ensures
        meaning(d) == PerfEvent::TimerFire <==> d & 0xffff_fffc == 0x2503_0000,
        meaning(d) == PerfEvent::WaitSample <==> d & 0xffff_fffc == 0x2509_0004,
        meaning(d) == PerfEvent::ThreadInfo <==> d & 0xffff_fffc == 0x2501_0004,
        meaning(d) == PerfEvent::KernelHeader <==> d & 0xffff_fffc == 0x2502_0014,
        meaning(d) == PerfEvent::KernelData <==> d & 0xffff_fffc == 0x2502_000c,
        meaning(d) == PerfEvent::UserHeader <==> d & 0xffff_fffc == 0x2502_0018,
        meaning(d) == PerfEvent::UserData <==> d & 0xffff_fffc == 0x2502_0010,
{
    let m = d & 0xffff_fffc;
    assert(m == d / 4 * 4) by (bit_vector)
        requires
            m == d & 0xffff_fffc,
    ;
}

/// The law of an off-CPU sample: where a thread wakes from a wait and then logs its
/// callstack, here of up to four addresses, one sample comes of it. It is of that thread,
/// at the moment it woke; its weight is the wait, in nanoseconds; its frames are the
/// addresses as they came, leaf first.
pub proof fn lemma_wait_then_stack(
    s: LazyView,
    tb: TimebaseInfo,
    wait: KdEvent,
    info: KdEvent,
    header: KdEvent,
    data: KdEvent,
)
    requires
        tb.wf(),
        meaning(wait.debugid) == PerfEvent::WaitSample,
        meaning(info.debugid) == PerfEvent::ThreadInfo,
        meaning(header.debugid) == PerfEvent::UserHeader,
        meaning(data.debugid) == PerfEvent::UserData,
        info.arg5 == wait.arg5,
        header.arg5 == wait.arg5,
        data.arg5 == wait.arg5,
        header.arg2 <= 4,
        wait.arg1 as nat * tb.numer as nat / tb.denom as nat <= u64::MAX,
    ensures
        ({
            let a = lazy_step(s, tb, wait);
            let b = lazy_step(a.0, tb, info);
            let c = lazy_step(b.0, tb, header);
            let d = lazy_step(c.0, tb, data);
            &&& a.1 is None && b.1 is None && c.1 is None
            &&& d.1 matches Some(x) && {
                &&& x.tid == wait.arg5
                &&& x.pid == info.arg1
                &&& x.cpu == data.cpuid
                &&& x.ts_ticks == wait.timestamp
                &&& x.wait_ns == wait.arg1 as nat * tb.numer as nat / tb.denom as nat
                &&& x.frames.len() == header.arg2
                &&& x.frames == seq![data.arg1, data.arg2, data.arg3, data.arg4].take(
                    header.arg2 as int,
                )
            }
            &&& !d.0.pending_wait.dom().contains(wait.arg5)
        }),
{
    let pcs = pcs_of(data);
    let want = header.arg2 as int;
    assert(Seq::<u64>::empty() + pcs.take(want) =~= pcs.take(want));
    assert(Seq::<u64>::empty() + pcs =~= pcs);
    assert(pcs.take(4) =~= pcs);
    assert(Seq::<u64>::empty() =~= pcs.take(0));
}

/// What the emitter is handed of an off-CPU sample is all that the decoder found.
pub proof fn lemma_decoded_keeps(s: OffCpuView)
    ensures
        decoded(s).pid == s.pid,
        decoded(s).tid == s.tid,
        decoded(s).cpu == s.cpu,
        decoded(s).ts_ticks == s.ts_ticks,
        decoded(s).frames == s.frames,
        decoded(s).kernel_frames.len() == 0,
{
}

} // verus!
