//! The consumers of the sampler's events. Both samplers log the same callstacks;
//! what tells them apart is what comes before: a wait that ended, for an off-CPU
//! sample, or a timer that fired, for an on-CPU one. Each consumer puts the stacks
//! together for itself and takes those whose thread has its own trigger pending.

use crate::mach::TimebaseInfo;
use crate::sched::kperf_offcpu;
use crate::sched::kperf_offcpu::{decoded_stack, perf_event, LazyDecoder, PerfEvent};
use crate::sched::perf_emitter;
use crate::sched::perf_emitter::{DecodedStack, Module, PerfEmitter};
use crate::sched::ring::{ConsumerCtl, KdEvent, RingConsumer};
use crate::sched::user_stacks;
use crate::sched::user_stacks::UserStacks;
use std::collections::HashMap;
use vstd::prelude::*;
use vstd::string::*;

verus! {

/// All subclasses of the sampler's class.
pub const DBG_PERF_CSC_LO: u16 = 0x2500;

pub const DBG_PERF_CSC_HI: u16 = 0x25ff;

/// Off-CPU samples, weighted by the wait.
pub struct OffCpuConsumer {
    pub ctl: ConsumerCtl,
    pub emitter: PerfEmitter,
    pub decoder: LazyDecoder,
}

impl OffCpuConsumer {
    pub open spec fn wf(self) -> bool {
        self.emitter.wf() && self.decoder.tb.wf()
    }

    pub fn new(ctl: ConsumerCtl, modules: Vec<Module>, tb: TimebaseInfo) -> (c: Self)
        requires
            tb.wf(),
        ensures
            c.wf(),
            c.ctl == ctl,
            c.emitter.timebase_name@ == "off-cpu-ns".spec_bytes(),
            c.emitter.modules == modules,
            c.emitter.need_defaults,
            c.emitter.tb == tb,
            c.emitter.since_reload == 0,
            c.decoder.tb == tb,
            c.decoder@ == (kperf_offcpu::LazyView {
                pending_wait: Map::empty(),
                stacks: user_stacks::no_stacks(),
            }),
    {
        OffCpuConsumer {
            ctl,
            emitter: PerfEmitter::new("off-cpu-ns".as_bytes(), modules, tb),
            decoder: LazyDecoder::new(tb),
        }
    }

    /// Take in an event; a sample and its weight where one became whole.
    pub fn decode(&mut self, e: &KdEvent) -> (r: Option<(DecodedStack, u64)>)
        requires
            old(self).wf(),
        ensures
            final(self).wf(),
            final(self).ctl == old(self).ctl,
            final(self).emitter == old(self).emitter,
            final(self).decoder.tb == old(self).decoder.tb,
            ({
                let t = kperf_offcpu::lazy_step(old(self).decoder@, old(self).decoder.tb, *e);
                &&& final(self).decoder@ == t.0
                &&& r is Some <==> t.1 is Some
                &&& r matches Some(d) ==> (t.1 matches Some(s) && d.0@ == kperf_offcpu::decoded(s)
                    && d.1 == s.wait_ns)
            }),
    {
        match self.decoder.on_event(e) {
            Some(s) => Some(decoded_stack(s)),
            None => None,
        }
    }
}

/// The samples of the first `n` events, and the state after them.
pub open spec fn lazy_run(
    s: kperf_offcpu::LazyView,
    tb: TimebaseInfo,
    events: Seq<KdEvent>,
    n: nat,
) -> (kperf_offcpu::LazyView, Seq<kperf_offcpu::OffCpuView>)
    decreases n,
{
    if n == 0 {
        (s, Seq::empty())
    } else {
        let (t, out) = lazy_run(s, tb, events, (n - 1) as nat);
        let (u, x) = kperf_offcpu::lazy_step(t, tb, events[n - 1]);
        (
            u,
            match x {
                Some(v) => out.push(v),
                None => out,
            },
        )
    }
}

impl OffCpuConsumer {
    /// The samples of a drained batch, each with its weight; they are counted.
    pub fn on_drain(&mut self, events: &[KdEvent]) -> (r: Vec<(DecodedStack, u64)>)
        requires
            old(self).wf(),
        ensures
            final(self).wf(),
            final(self).emitter == old(self).emitter,
            final(self).decoder.tb == old(self).decoder.tb,
            ({
                let t = lazy_run(
                    old(self).decoder@,
                    old(self).decoder.tb,
                    events@,
                    events@.len(),
                );
                &&& final(self).decoder@ == t.0
                &&& r@.len() == t.1.len()
                &&& forall|i: int|
                    0 <= i < r@.len() ==> (#[trigger] r@[i]).0@ == kperf_offcpu::decoded(t.1[i])
                        && r@[i].1 == t.1[i].wait_ns
            }),
            final(self).ctl == (ConsumerCtl {
                samples: vstd::wrapping::u64_specs::wrapping_add(
                    old(self).ctl.samples,
                    r@.len() as u64,
                ),
                ..old(self).ctl
            }),
    {
        let ghost start = self.decoder@;
        let mut r: Vec<(DecodedStack, u64)> = Vec::new();
        let mut i: usize = 0;
        while i < events.len()
            invariant
                i <= events@.len(),
                self.wf(),
                self.ctl == old(self).ctl,
                self.emitter == old(self).emitter,
                self.decoder.tb == old(self).decoder.tb,
                self.decoder@ == lazy_run(start, self.decoder.tb, events@, i as nat).0,
                r@.len() == lazy_run(start, self.decoder.tb, events@, i as nat).1.len(),
                forall|j: int|
                    0 <= j < r@.len() ==> ({
                        let v = lazy_run(start, self.decoder.tb, events@, i as nat).1[j];
                        (#[trigger] r@[j]).0@ == kperf_offcpu::decoded(v) && r@[j].1 == v.wait_ns
                    }),
            decreases events@.len() - i,
        {
            if let Some(s) = self.decode(&events[i]) {
                r.push(s);
            }
            i += 1;
        }
        self.ctl.count(r.len() as u64);
        r
    }
}

impl RingConsumer for OffCpuConsumer {
    open spec fn ranges(&self) -> Seq<(u16, u16)> {
        seq![(DBG_PERF_CSC_LO, DBG_PERF_CSC_HI)]
    }

    fn csc_ranges(&self) -> (r: Vec<(u16, u16)>) {
        let mut r: Vec<(u16, u16)> = Vec::new();
        r.push((DBG_PERF_CSC_LO, DBG_PERF_CSC_HI));
        assert(r@ =~= self.ranges());
        r
    }
}

/// The state of the on-CPU consumer, as plain values: when the timer fired on each
/// thread, in ticks; and the callstacks.
#[verifier::ext_equal]
pub struct OnCpuView {
    pub pending_fire: Map<u64, u64>,
    pub stacks: user_stacks::StacksView,
}

/// On-CPU samples, weighted by the period of the timer.
pub struct OnCpuConsumer {
    pub ctl: ConsumerCtl,
    pub emitter: PerfEmitter,
    pub stacks: UserStacks,
    pub pending_fire: HashMap<u64, u64>,
    pub period_ns: u64,
}

impl View for OnCpuConsumer {
    type V = OnCpuView;

    open spec fn view(&self) -> OnCpuView {
        OnCpuView { pending_fire: self.pending_fire@, stacks: self.stacks@ }
    }
}

/// What an event does: the state after it, and a sample where a callstack became
/// whole on whose thread the timer fired. The kernel's stack came before.
pub open spec fn fire_step(s: OnCpuView, e: KdEvent) -> (OnCpuView, Option<
    perf_emitter::DecodedView,
>) {
    let tid = e.arg5;
    match kperf_offcpu::meaning(e.debugid) {
        PerfEvent::TimerFire => (
            OnCpuView { pending_fire: s.pending_fire.insert(tid, e.timestamp), ..s },
            None,
        ),
        PerfEvent::ThreadInfo => (
            OnCpuView {
                stacks: user_stacks::StacksView {
                    pid_of: s.stacks.pid_of.insert(tid, e.arg1),
                    ..s.stacks
                },
                ..s
            },
            None,
        ),
        PerfEvent::KernelHeader => (
            OnCpuView {
                stacks: user_stacks::StacksView {
                    building_kernel: s.stacks.building_kernel.insert(
                        tid,
                        user_stacks::after_header(e.arg2),
                    ),
                    ..s.stacks
                },
                ..s
            },
            None,
        ),
        PerfEvent::KernelData => (
            OnCpuView {
                stacks: user_stacks::kdata(s.stacks, tid, kperf_offcpu::pcs_of(e)),
                ..s
            },
            None,
        ),
        PerfEvent::UserHeader => (
            OnCpuView {
                stacks: user_stacks::StacksView {
                    building: s.stacks.building.insert(tid, user_stacks::after_header(e.arg2)),
                    ..s.stacks
                },
                ..s
            },
            None,
        ),
        PerfEvent::UserData => {
            let u = user_stacks::udata(s.stacks, tid, kperf_offcpu::pcs_of(e));
            match u.1 {
                None => (OnCpuView { stacks: u.0, ..s }, None),
                Some(done) => if s.pending_fire.dom().contains(tid) {
                    (
                        OnCpuView {
                            pending_fire: s.pending_fire.remove(tid),
                            stacks: user_stacks::StacksView {
                                kernel_done: u.0.kernel_done.remove(tid),
                                ..u.0
                            },
                        },
                        Some(
                            perf_emitter::DecodedView {
                                pid: done.0,
                                tid,
                                cpu: e.cpuid,
                                ts_ticks: s.pending_fire[tid],
                                frames: done.1,
                                kernel_frames: user_stacks::kernel_of(u.0, tid),
                            },
                        ),
                    )
                } else {
                    (OnCpuView { stacks: u.0, ..s }, None)
                },
            }
        },
        _ => (s, None),
    }
}

impl OnCpuConsumer {
    pub open spec fn wf(self) -> bool {
        self.emitter.wf()
    }

    pub fn new(ctl: ConsumerCtl, modules: Vec<Module>, tb: TimebaseInfo, period_ns: u64) -> (c: Self)
        requires
            tb.wf(),
        ensures
            c.wf(),
            c.ctl == ctl,
            c.emitter.timebase_name@ == "cpu-ns".spec_bytes(),
            c.emitter.modules == modules,
            c.emitter.need_defaults,
            c.emitter.tb == tb,
            c.emitter.since_reload == 0,
            c.period_ns == period_ns,
            c@ == (OnCpuView { pending_fire: Map::empty(), stacks: user_stacks::no_stacks() }),
    {
        let c = OnCpuConsumer {
            ctl,
            emitter: PerfEmitter::new("cpu-ns".as_bytes(), modules, tb),
            stacks: UserStacks::new(),
            pending_fire: HashMap::new(),
            period_ns,
        };
        assert(c@.pending_fire =~= Map::empty());
        c
    }

    /// Take in an event; a sample where one became whole. Its weight is the period.
    pub fn decode(&mut self, e: &KdEvent) -> (r: Option<DecodedStack>)
        ensures
            final(self).ctl == old(self).ctl,
            final(self).emitter == old(self).emitter,
            final(self).period_ns == old(self).period_ns,
            ({
                let t = fire_step(old(self)@, *e);
                &&& final(self)@ == t.0
                &&& r is Some <==> t.1 is Some
                &&& r matches Some(d) ==> t.1 == Some(d@)
            }),
    {
        let ghost before = self@;
        let tid: u64 = e.arg5;
        let pcs: [u64; 4] = [e.arg1, e.arg2, e.arg3, e.arg4];
        assert(pcs@ =~= kperf_offcpu::pcs_of(*e));
        match perf_event(e) {
            PerfEvent::TimerFire => {
                self.pending_fire.insert(tid, e.timestamp);
                None
            },
            PerfEvent::ThreadInfo => {
                self.stacks.on_threadinfo(tid, e.arg1);
                None
            },
            PerfEvent::KernelHeader => {
                self.stacks.on_khdr(tid, e.arg2);
                None
            },
            PerfEvent::KernelData => {
                self.stacks.on_kdata(tid, pcs);
                None
            },
            PerfEvent::UserHeader => {
                self.stacks.on_uhdr(tid, e.arg2);
                None
            },
            PerfEvent::UserData => match self.stacks.on_udata(tid, pcs) {
                None => None,
                Some((pid, frames)) => match self.pending_fire.remove(&tid) {
                    None => {
                        assert(self@.pending_fire =~= before.pending_fire);
                        None
                    },
                    Some(ts_ticks) => {
                        let kernel_frames = self.stacks.take_kernel(tid);
                        Some(
                            DecodedStack {
                                pid,
                                tid,
                                cpu: e.cpuid,
                                ts_ticks,
                                frames,
                                kernel_frames,
                            },
                        )
                    },
                },
            },
            _ => None,
        }
    }
}

/// The samples of the first `n` events, and the state after them.
pub open spec fn fire_run(s: OnCpuView, events: Seq<KdEvent>, n: nat) -> (OnCpuView, Seq<
    perf_emitter::DecodedView,
>)
    decreases n,
{
    if n == 0 {
        (s, Seq::empty())
    } else {
        let (t, out) = fire_run(s, events, (n - 1) as nat);
        let (u, x) = fire_step(t, events[n - 1]);
        (
            u,
            match x {
                Some(v) => out.push(v),
                None => out,
            },
        )
    }
}

impl OnCpuConsumer {
    /// The samples of a drained batch; they are counted. The weight of each is the
    /// period.
    pub fn on_drain(&mut self, events: &[KdEvent]) -> (r: Vec<DecodedStack>)
        ensures
            final(self).emitter == old(self).emitter,
            final(self).period_ns == old(self).period_ns,
            ({
                let t = fire_run(old(self)@, events@, events@.len());
                &&& final(self)@ == t.0
                &&& r@.len() == t.1.len()
                &&& forall|i: int| 0 <= i < r@.len() ==> (#[trigger] r@[i])@ == t.1[i]
            }),
            final(self).ctl == (ConsumerCtl {
                samples: vstd::wrapping::u64_specs::wrapping_add(
                    old(self).ctl.samples,
                    r@.len() as u64,
                ),
                ..old(self).ctl
            }),
    {
        let ghost start = self@;
        let mut r: Vec<DecodedStack> = Vec::new();
        let mut i: usize = 0;
        while i < events.len()
            invariant
                i <= events@.len(),
                self.ctl == old(self).ctl,
                self.emitter == old(self).emitter,
                self.period_ns == old(self).period_ns,
                self@ == fire_run(start, events@, i as nat).0,
                r@.len() == fire_run(start, events@, i as nat).1.len(),
                forall|j: int|
                    0 <= j < r@.len() ==> (#[trigger] r@[j])@ == fire_run(
                        start,
                        events@,
                        i as nat,
                    ).1[j],
            decreases events@.len() - i,
        {
            if let Some(s) = self.decode(&events[i]) {
                r.push(s);
            }
            i += 1;
        }
        self.ctl.count(r.len() as u64);
        r
    }
}

impl RingConsumer for OnCpuConsumer {
    open spec fn ranges(&self) -> Seq<(u16, u16)> {
        seq![(DBG_PERF_CSC_LO, DBG_PERF_CSC_HI)]
    }

    fn csc_ranges(&self) -> (r: Vec<(u16, u16)>) {
        let mut r: Vec<(u16, u16)> = Vec::new();
        r.push((DBG_PERF_CSC_LO, DBG_PERF_CSC_HI));
        assert(r@ =~= self.ranges());
        r
    }
}

/// A callstack on whose thread no timer fired gives no sample: a fire gives one
/// sample at most.
pub proof fn lemma_fire_gives_one_sample(s: OnCpuView, e: KdEvent)
    ensures
        fire_step(s, e).1 is Some ==> {
            &&& s.pending_fire.dom().contains(e.arg5)
            &&& !fire_step(s, e).0.pending_fire.dom().contains(e.arg5)
        },
{
}

/// The two consumers tell the samples of one stream apart: of a callstack whose
/// thread has only woken from a wait the on-CPU consumer makes none, and of one on
/// whose thread only a timer fired the off-CPU consumer makes none.
pub proof fn lemma_consumers_demux(
    off: kperf_offcpu::LazyView,
    on: OnCpuView,
    tb: TimebaseInfo,
    e: KdEvent,
)
    requires
        !(off.pending_wait.dom().contains(e.arg5) && on.pending_fire.dom().contains(e.arg5)),
    ensures
        !(kperf_offcpu::lazy_step(off, tb, e).1 is Some && fire_step(on, e).1 is Some),
        off.stacks.building == on.stacks.building && off.stacks.pid_of == on.stacks.pid_of ==> (
        kperf_offcpu::lazy_step(off, tb, e).0.stacks.building == fire_step(
            on,
            e,
        ).0.stacks.building),
{
}

/// The law of an on-CPU sample: where a timer fires on a thread and the thread then logs
/// its kernel and its user callstack, here of up to four addresses each, one sample comes
/// of it. It is of that thread, at the moment the timer fired, with the addresses of both
/// callstacks as they came, leaf first.
pub proof fn lemma_fire_then_stack(
    s: OnCpuView,
    fire: KdEvent,
    info: KdEvent,
    kheader: KdEvent,
    kdata: KdEvent,
    header: KdEvent,
    data: KdEvent,
)
    requires
        kperf_offcpu::meaning(fire.debugid) == PerfEvent::TimerFire,
        kperf_offcpu::meaning(info.debugid) == PerfEvent::ThreadInfo,
        kperf_offcpu::meaning(kheader.debugid) == PerfEvent::KernelHeader,
        kperf_offcpu::meaning(kdata.debugid) == PerfEvent::KernelData,
        kperf_offcpu::meaning(header.debugid) == PerfEvent::UserHeader,
        kperf_offcpu::meaning(data.debugid) == PerfEvent::UserData,
        info.arg5 == fire.arg5,
        kheader.arg5 == fire.arg5,
        kdata.arg5 == fire.arg5,
        header.arg5 == fire.arg5,
        data.arg5 == fire.arg5,
        kheader.arg2 <= 4,
        header.arg2 <= 4,
    ensures
        ({
            let a = fire_step(s, fire);
            let b = fire_step(a.0, info);
            let c = fire_step(b.0, kheader);
            let d = fire_step(c.0, kdata);
            let e = fire_step(d.0, header);
            let f = fire_step(e.0, data);
            &&& a.1 is None && b.1 is None && c.1 is None && d.1 is None && e.1 is None
            &&& f.1 matches Some(x) && {
                &&& x.tid == fire.arg5
                &&& x.pid == info.arg1
                &&& x.cpu == data.cpuid
                &&& x.ts_ticks == fire.timestamp
                &&& x.frames == seq![data.arg1, data.arg2, data.arg3, data.arg4].take(
                    header.arg2 as int,
                )
                &&& x.kernel_frames == seq![kdata.arg1, kdata.arg2, kdata.arg3, kdata.arg4].take(
                    kheader.arg2 as int,
                )
            }
            &&& !f.0.pending_fire.dom().contains(fire.arg5)
            &&& !f.0.stacks.kernel_done.dom().contains(fire.arg5)
        }),
{
    let pcs = kperf_offcpu::pcs_of(data);
    let kpcs = kperf_offcpu::pcs_of(kdata);
    let none = Seq::<u64>::empty();
    assert(none + pcs.take(header.arg2 as int) =~= pcs.take(header.arg2 as int));
    assert(none + kpcs.take(kheader.arg2 as int) =~= kpcs.take(kheader.arg2 as int));
    assert(none + pcs =~= pcs);
    assert(none + kpcs =~= kpcs);
    assert(pcs.take(4) =~= pcs);
    assert(kpcs.take(4) =~= kpcs);
    assert(none =~= pcs.take(0));
    assert(none =~= kpcs.take(0));
}

/// The samples do not depend on how the events are handed in: those of one run of events
/// and then of another are those of both together, in their order.
#[verifier::spinoff_prover]
#[verifier::rlimit(40)]
pub proof fn lemma_fire_run_in_pieces(s: OnCpuView, a: Seq<KdEvent>, b: Seq<KdEvent>, n: nat)
    requires
        n <= b.len(),
    ensures
        ({
            let first = fire_run(s, a, a.len());
            let second = fire_run(first.0, b, n);
            fire_run(s, a + b, a.len() + n) == (second.0, first.1 + second.1)
        }),
    decreases n,
{
    let first = fire_run(s, a, a.len());
    if n == 0 {
        lemma_fire_run_of_prefix(s, a, b, a.len());
        assert(first.1 + Seq::empty() =~= first.1);
    } else {
        lemma_fire_run_in_pieces(s, a, b, (n - 1) as nat);
        assert((a + b)[a.len() + n - 1] == b[n - 1]);
        let second = fire_run(first.0, b, (n - 1) as nat);
        if let Some(v) = fire_step(second.0, b[n - 1]).1 {
            assert((first.1 + second.1).push(v) =~= first.1 + second.1.push(v));
        }
    }
}

proof fn lemma_fire_run_of_prefix(s: OnCpuView, a: Seq<KdEvent>, b: Seq<KdEvent>, n: nat)
    requires
        n <= a.len(),
    ensures
        fire_run(s, a + b, n) == fire_run(s, a, n),
    decreases n,
{
    if n > 0 {
        lemma_fire_run_of_prefix(s, a, b, (n - 1) as nat);
        assert((a + b)[n - 1] == a[n - 1]);
    }
}

/// The waits do not depend on how the events are handed in either.
#[verifier::spinoff_prover]
#[verifier::rlimit(40)]
pub proof fn lemma_lazy_run_in_pieces(
    s: kperf_offcpu::LazyView,
    tb: TimebaseInfo,
    a: Seq<KdEvent>,
    b: Seq<KdEvent>,
    n: nat,
)
    requires
        n <= b.len(),
    ensures
        ({
            let first = lazy_run(s, tb, a, a.len());
            let second = lazy_run(first.0, tb, b, n);
            lazy_run(s, tb, a + b, a.len() + n) == (second.0, first.1 + second.1)
        }),
    decreases n,
{
    let first = lazy_run(s, tb, a, a.len());
    if n == 0 {
        lemma_lazy_run_of_prefix(s, tb, a, b, a.len());
        assert(first.1 + Seq::empty() =~= first.1);
    } else {
        lemma_lazy_run_in_pieces(s, tb, a, b, (n - 1) as nat);
        assert((a + b)[a.len() + n - 1] == b[n - 1]);
        let second = lazy_run(first.0, tb, b, (n - 1) as nat);
        if let Some(v) = kperf_offcpu::lazy_step(second.0, tb, b[n - 1]).1 {
            assert((first.1 + second.1).push(v) =~= first.1 + second.1.push(v));
        }
    }
}

proof fn lemma_lazy_run_of_prefix(
    s: kperf_offcpu::LazyView,
    tb: TimebaseInfo,
    a: Seq<KdEvent>,
    b: Seq<KdEvent>,
    n: nat,
)
    requires
        n <= a.len(),
    ensures
        lazy_run(s, tb, a + b, n) == lazy_run(s, tb, a, n),
    decreases n,
{
    if n > 0 {
        lemma_lazy_run_of_prefix(s, tb, a, b, (n - 1) as nat);
        assert((a + b)[n - 1] == a[n - 1]);
    }
}

} // verus!
