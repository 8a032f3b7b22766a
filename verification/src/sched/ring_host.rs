//! The host of the kernel's trace ring. The ring and the sampler exist once on a
//! machine, so one worker owns them and hands what it drains to its consumers: the
//! scheduler's timeline, the off-CPU samples and the on-CPU samples. Each consumer
//! is a data source of its own, with its own start and stop.

use crate::mach::TimebaseInfo;
use crate::proto::sismo_config;
use crate::proto::sismo_config::{config_extract, cpu_decode, sched_decode};
use crate::sched::kperf_sample::{DBG_PERF_CSC_HI, DBG_PERF_CSC_LO};
use crate::sched::macos_sched_capture;
use crate::sched::macos_sched_capture::{
    is_near_full, PtCache, SwitchPairer, DEFAULT_KERNEL_BUFFER_EVENTS, SCHED_CSC,
};
use crate::sched::ring::{ConsumerCtl, KdEvent, KdThreadMap, RingConsumer};
use crate::worker_sdk::{Event, Rest, WorkerAction};
use vstd::prelude::*;

verus! {

/// Waits shorter than this are passed over, where the set-up does not say.
pub const DEFAULT_OFFCPU_THRESHOLD_US: u32 = 500;

/// The period of the on-CPU timer, where the set-up does not say.
pub const DEFAULT_CPU_INTERVAL_US: u32 = 1_000;

/// The scheduler's timeline as a consumer of the ring.
pub struct SchedConsumer {
    pub ctl: ConsumerCtl,
    pub pairer: SwitchPairer,
    pub cache: PtCache,
}

impl SchedConsumer {
    pub open spec fn wf(self) -> bool {
        self.pairer.wf()
    }

    pub fn new(ctl: ConsumerCtl, tb: TimebaseInfo) -> (c: Self)
        requires
            tb.wf(),
        ensures
            c.wf(),
            c.ctl == ctl,
            c.pairer.tb == tb,
            c.pairer.only_sched,
            c.pairer.pending@ == Seq::new(
                macos_sched_capture::MAX_CPUS as nat,
                |i: int| macos_sched_capture::no_switch(),
            ),
            c.cache@ == (macos_sched_capture::CacheView {
                threads: Map::empty(),
                processes: Map::empty(),
            }),
    {
        SchedConsumer { ctl, pairer: SwitchPairer::new(tb, true), cache: PtCache::new() }
    }

    /// The packets of a drained batch, once the names in its thread map were
    /// learned; they are counted.
    pub fn on_drain(&mut self, events: &[KdEvent]) -> (r: Vec<Vec<u8>>)
        requires
            old(self).wf(),
        ensures
            final(self).wf(),
            final(self).cache == old(self).cache,
            final(self).pairer.tb == old(self).pairer.tb,
            final(self).pairer.only_sched == old(self).pairer.only_sched,
            (final(self).pairer.pending@, crate::intern::rows(r@)) == macos_sched_capture::batch(
                old(self).pairer.pending@,
                old(self).cache@,
                Seq::empty(),
                old(self).pairer.tb,
                old(self).pairer.only_sched,
                events@,
                events@.len(),
            ),
            final(self).ctl == (ConsumerCtl {
                samples: vstd::wrapping::u64_specs::wrapping_add(
                    old(self).ctl.samples,
                    r@.len() as u64,
                ),
                ..old(self).ctl
            }),
    {
        let none: Vec<KdThreadMap> = Vec::new();
        assert(none@ =~= Seq::empty());
        let r = self.pairer.emit_batch(events, none.as_slice(), &self.cache);
        self.ctl.count(r.len() as u64);
        r
    }
}

impl RingConsumer for SchedConsumer {
    open spec fn ranges(&self) -> Seq<(u16, u16)> {
        seq![(SCHED_CSC, SCHED_CSC)]
    }

    fn csc_ranges(&self) -> (r: Vec<(u16, u16)>) {
        let mut r: Vec<(u16, u16)> = Vec::new();
        r.push((SCHED_CSC, SCHED_CSC));
        assert(r@ =~= self.ranges());
        r
    }
}

/// Which consumers to host.
#[derive(Clone, Copy, PartialEq, Eq, Structural, Debug)]
pub struct RingConfig {
    pub sched: bool,
    pub offcpu: bool,
    pub oncpu: bool,
}

/// What the host reports when it shuts down.
#[derive(Clone, Copy, PartialEq, Eq, Structural, Debug)]
pub struct RingStats {
    pub sched_events: u64,
    pub drain_calls: u64,
    pub offcpu_samples: u64,
    pub oncpu_samples: u64,
}

/// A data source of the host.
#[derive(Clone, Copy, PartialEq, Eq, Structural, Debug)]
pub enum Source {
    Sched,
    OffCpu,
    OnCpu,
}

/// What the set-ups come to.
pub struct RingPlan {
    pub kernel_buffer_events: i32,
    pub target_pid: u32,
    pub threshold_ns: u64,
    pub period_ns: u64,
    /// Samples are only taken of a target.
    pub want_offcpu: bool,
    pub want_oncpu: bool,
    /// The ranges of events that the ring keeps.
    pub csc_ranges: Vec<(u16, u16)>,
}

pub struct RingHost {
    pub wakeup: Event,
    pub exit_requested: bool,
    pub setups_needed: u32,
    pub setups_received: u32,
    pub setup_kernel_buffer_events: i32,
    pub setup_target_pid: u32,
    pub setup_offcpu_threshold_us: u32,
    pub setup_cpu_interval_us: u32,
    pub sched_ctl: Option<ConsumerCtl>,
    pub offcpu_ctl: Option<ConsumerCtl>,
    pub oncpu_ctl: Option<ConsumerCtl>,
    pub drain_calls: u64,
}

pub open spec fn runs(c: Option<ConsumerCtl>) -> bool {
    c matches Some(x) && x.running
}

pub open spec fn stop_of(c: Option<ConsumerCtl>) -> u64 {
    match c {
        Some(x) => x.pending_stopper,
        None => 0,
    }
}

/// A control block once its stop, where one is pending, was acknowledged.
pub open spec fn after_stop(c: Option<ConsumerCtl>) -> Option<ConsumerCtl> {
    match c {
        Some(x) => if x.pending_stopper != 0 {
            Some(ConsumerCtl { pending_stopper: 0, running: false, ..x })
        } else {
            Some(x)
        },
        None => None,
    }
}

pub open spec fn ack(s: u64) -> Seq<WorkerAction> {
    if s != 0 {
        seq![WorkerAction::StopDone(s)]
    } else {
        seq![]
    }
}

pub open spec fn drain_if(b: bool) -> Seq<WorkerAction> {
    if b {
        seq![WorkerAction::Drain]
    } else {
        seq![]
    }
}

/// One turn of the host: it drains while a consumer runs, and once more before it
/// acknowledges stops.
pub open spec fn host_actions(
    a: Option<ConsumerCtl>,
    b: Option<ConsumerCtl>,
    c: Option<ConsumerCtl>,
) -> Seq<WorkerAction> {
    drain_if(runs(a) || runs(b) || runs(c)) + drain_if(
        stop_of(a) != 0 || stop_of(b) != 0 || stop_of(c) != 0,
    ) + ack(stop_of(a)) + ack(stop_of(b)) + ack(stop_of(c))
}

/// What a value of a set-up is, or the default where it is 0, in nanoseconds.
pub open spec fn us_to_ns(us: u32, default_us: u32) -> u64 {
    if us != 0 {
        (us * 1_000) as u64
    } else {
        (default_us * 1_000) as u64
    }
}

fn in_ns(us: u32, default_us: u32) -> (r: u64)
    ensures
        r == us_to_ns(us, default_us),
{
    if us != 0 {
        us as u64 * 1_000
    } else {
        default_us as u64 * 1_000
    }
}

/// Take up the stop of a consumer.
fn take_stop(c: Option<ConsumerCtl>) -> (r: (Option<ConsumerCtl>, u64))
    ensures
        r.0 == after_stop(c),
        r.1 == stop_of(c),
{
    match c {
        Some(x) => {
            let s: u64 = x.pending_stopper;
            let mut n = x;
            if s != 0 {
                n.pending_stopper = 0;
                n.running = false;
            }
            (Some(n), s)
        },
        None => (None, 0),
    }
}

fn is_running(c: &Option<ConsumerCtl>) -> (r: bool)
    ensures
        r == runs(*c),
{
    match c {
        Some(x) => x.running,
        None => false,
    }
}

impl RingHost {
    pub fn new() -> (h: Self)
        ensures
            h == (RingHost {
                wakeup: Event { signaled: false },
                exit_requested: false,
                setups_needed: 0,
                setups_received: 0,
                setup_kernel_buffer_events: 0,
                setup_target_pid: 0,
                setup_offcpu_threshold_us: 0,
                setup_cpu_interval_us: 0,
                sched_ctl: None,
                offcpu_ctl: None,
                oncpu_ctl: None,
                drain_calls: 0,
            }),
    {
        RingHost {
            wakeup: Event::new(),
            exit_requested: false,
            setups_needed: 0,
            setups_received: 0,
            setup_kernel_buffer_events: 0,
            setup_target_pid: 0,
            setup_offcpu_threshold_us: 0,
            setup_cpu_interval_us: 0,
            sched_ctl: None,
            offcpu_ctl: None,
            oncpu_ctl: None,
            drain_calls: 0,
        }
    }

    pub open spec fn ctl(self, s: Source) -> Option<ConsumerCtl> {
        match s {
            Source::Sched => self.sched_ctl,
            Source::OffCpu => self.offcpu_ctl,
            Source::OnCpu => self.oncpu_ctl,
        }
    }

    /// The host with another control block for a source.
    pub open spec fn with_ctl(self, s: Source, c: Option<ConsumerCtl>) -> RingHost {
        match s {
            Source::Sched => RingHost { sched_ctl: c, ..self },
            Source::OffCpu => RingHost { offcpu_ctl: c, ..self },
            Source::OnCpu => RingHost { oncpu_ctl: c, ..self },
        }
    }

    fn get_ctl(&self, s: Source) -> (c: Option<ConsumerCtl>)
        ensures
            c == self.ctl(s),
    {
        match s {
            Source::Sched => self.sched_ctl,
            Source::OffCpu => self.offcpu_ctl,
            Source::OnCpu => self.oncpu_ctl,
        }
    }

    fn put_ctl(&mut self, s: Source, c: Option<ConsumerCtl>)
        ensures
            *final(self) == old(self).with_ctl(s, c),
    {
        match s {
            Source::Sched => {
                self.sched_ctl = c;
            },
            Source::OffCpu => {
                self.offcpu_ctl = c;
            },
            Source::OnCpu => {
                self.oncpu_ctl = c;
            },
        }
    }

    /// Take in a data source that was registered under `slot`; the largest number
    /// means that it was not.
    pub fn register(&mut self, s: Source, slot: u32) -> (registered: bool)
        ensures
            registered == (slot != u32::MAX),
            !registered ==> *final(self) == *old(self),
            registered ==> *final(self) == (RingHost {
                setups_needed: vstd::wrapping::u32_specs::wrapping_add(old(self).setups_needed, 1),
                ..old(self).with_ctl(
                    s,
                    Some(
                        ConsumerCtl {
                            ds_slot: slot,
                            running: false,
                            pending_stopper: 0,
                            samples: 0,
                        },
                    ),
                )
            }),
    {
        if slot == u32::MAX {
            return false;
        }
        let mut c = ConsumerCtl::new();
        c.ds_slot = slot;
        self.put_ctl(s, Some(c));
        self.setups_needed = self.setups_needed.wrapping_add(1);
        true
    }

    /// A set-up has arrived.
    pub open spec fn set_up(self) -> RingHost {
        RingHost {
            wakeup: Event { signaled: true },
            setups_received: vstd::wrapping::u32_specs::wrapping_add(self.setups_received, 1),
            ..self
        }
    }

    fn on_setup_done(&mut self)
        ensures
            *final(self) == old(self).set_up(),
    {
        self.setups_received = self.setups_received.wrapping_add(1);
        self.wakeup.set();
    }

    /// What a value that may be 0 leaves of an earlier one.
    pub open spec fn or_kept(new: u32, kept: u32) -> u32 {
        if new != 0 {
            new
        } else {
            kept
        }
    }

    /// The scheduler's set-up: it also carries the target and the threshold of the
    /// off-CPU samples.
    pub fn sched_on_setup(&mut self, dsc: &[u8])
        ensures
            ({
                let c = sismo_config::first_len(
                    crate::proto::wire::fields(dsc@),
                    sismo_config::DSC_SISMO_CONFIG_FIELD,
                );
                match c {
                    None => *final(self) == old(self).set_up(),
                    Some(b) => *final(self) == (RingHost {
                        setup_kernel_buffer_events: crate::bytes::bits_to_i32(
                            (sismo_config::config_value(b, 1) % 0x1_0000_0000) as int,
                        ),
                        setup_target_pid: Self::or_kept(
                            (sismo_config::config_value(b, 2) % 0x1_0000_0000) as u32,
                            old(self).setup_target_pid,
                        ),
                        setup_offcpu_threshold_us: (sismo_config::config_value(b, 3)
                            % 0x1_0000_0000) as u32,
                        ..old(self).set_up()
                    }),
                }
            }),
    {
        if let Some(b) = config_extract(dsc) {
            let (kbe, pid, threshold_us) = sched_decode(b);
            self.setup_kernel_buffer_events = kbe;
            if pid != 0 {
                self.setup_target_pid = pid;
            }
            self.setup_offcpu_threshold_us = threshold_us;
        }
        self.on_setup_done();
    }

    /// The set-up of the on-CPU samples.
    pub fn cpu_on_setup(&mut self, dsc: &[u8])
        ensures
            ({
                let c = sismo_config::first_len(
                    crate::proto::wire::fields(dsc@),
                    sismo_config::DSC_SISMO_CONFIG_FIELD,
                );
                match c {
                    None => *final(self) == old(self).set_up(),
                    Some(b) => *final(self) == (RingHost {
                        setup_target_pid: Self::or_kept(
                            (sismo_config::config_value(b, 1) % 0x1_0000_0000) as u32,
                            old(self).setup_target_pid,
                        ),
                        setup_cpu_interval_us: (sismo_config::config_value(b, 2)
                            % 0x1_0000_0000) as u32,
                        ..old(self).set_up()
                    }),
                }
            }),
    {
        if let Some(b) = config_extract(dsc) {
            let (pid, interval_us) = cpu_decode(b);
            if pid != 0 {
                self.setup_target_pid = pid;
            }
            self.setup_cpu_interval_us = interval_us;
        }
        self.on_setup_done();
    }

    /// The set-up of the off-CPU samples, which carries nothing.
    pub fn offcpu_on_setup(&mut self)
        ensures
            *final(self) == old(self).set_up(),
    {
        self.on_setup_done();
    }

    pub fn on_start(&mut self, s: Source)
        ensures
            *final(self) == (RingHost {
                wakeup: Event { signaled: true },
                ..old(self).with_ctl(
                    s,
                    match old(self).ctl(s) {
                        Some(c) => Some(ConsumerCtl { running: true, ..c }),
                        None => None,
                    },
                )
            }),
    {
        let c: Option<ConsumerCtl> = match self.get_ctl(s) {
            Some(mut x) => {
                x.start();
                Some(x)
            },
            None => None,
        };
        self.put_ctl(s, c);
        self.wakeup.set();
    }

    /// A stop is kept for the worker, which drains before it acknowledges it.
    pub fn on_stop(&mut self, s: Source, stopper: u64)
        ensures
            *final(self) == (RingHost {
                wakeup: Event { signaled: true },
                ..old(self).with_ctl(
                    s,
                    match old(self).ctl(s) {
                        Some(c) => if stopper != 0 {
                            Some(ConsumerCtl { pending_stopper: stopper, ..c })
                        } else {
                            Some(c)
                        },
                        None => None,
                    },
                )
            }),
    {
        let c: Option<ConsumerCtl> = match self.get_ctl(s) {
            Some(mut x) => {
                x.stop(stopper);
                Some(x)
            },
            None => None,
        };
        self.put_ctl(s, c);
        self.wakeup.set();
    }

    pub fn request_exit(&mut self)
        ensures
            *final(self) == (RingHost {
                exit_requested: true,
                wakeup: Event { signaled: true },
                ..*old(self)
            }),
    {
        self.exit_requested = true;
        self.wakeup.set();
    }

    /// One look before the worker starts: whether it goes on, once every set-up has
    /// arrived or the exit was asked for; None where it has to wait.
    pub fn wait_for_setups(&mut self) -> (goes_on: Option<bool>)
        ensures
            ({
                let ready = old(self).exit_requested || old(self).setups_received
                    >= old(self).setups_needed;
                &&& goes_on == (if ready {
                    Some(!old(self).exit_requested)
                } else {
                    None
                })
                &&& *final(self) == (if ready {
                    *old(self)
                } else {
                    RingHost { wakeup: Event { signaled: false }, ..*old(self) }
                })
            }),
    {
        if self.exit_requested || self.setups_received >= self.setups_needed {
            return Some(!self.exit_requested);
        }
        self.wakeup.reset();
        None
    }

    pub open spec fn any_runs(self) -> bool {
        runs(self.sched_ctl) || runs(self.offcpu_ctl) || runs(self.oncpu_ctl)
    }

    pub fn any_running(&self) -> (r: bool)
        ensures
            r == self.any_runs(),
    {
        is_running(&self.sched_ctl) || is_running(&self.offcpu_ctl) || is_running(&self.oncpu_ctl)
    }

    /// What the set-ups come to.
    pub fn plan(&self) -> (p: RingPlan)
        ensures
            p.kernel_buffer_events == (if self.setup_kernel_buffer_events != 0 {
                self.setup_kernel_buffer_events
            } else {
                DEFAULT_KERNEL_BUFFER_EVENTS
            }),
            p.target_pid == self.setup_target_pid,
            p.threshold_ns == us_to_ns(self.setup_offcpu_threshold_us, DEFAULT_OFFCPU_THRESHOLD_US),
            p.period_ns == us_to_ns(self.setup_cpu_interval_us, DEFAULT_CPU_INTERVAL_US),
            p.want_offcpu == (self.offcpu_ctl is Some && self.setup_target_pid != 0),
            p.want_oncpu == (self.oncpu_ctl is Some && self.setup_target_pid != 0),
            p.csc_ranges@ == (if self.sched_ctl is Some {
                seq![(SCHED_CSC, SCHED_CSC)]
            } else {
                seq![]
            }) + (if p.want_offcpu || p.want_oncpu {
                seq![(DBG_PERF_CSC_LO, DBG_PERF_CSC_HI)]
            } else {
                seq![]
            }),
    {
        let kbe: i32 = if self.setup_kernel_buffer_events != 0 {
            self.setup_kernel_buffer_events
        } else {
            DEFAULT_KERNEL_BUFFER_EVENTS
        };
        let want_offcpu: bool = self.offcpu_ctl.is_some() && self.setup_target_pid != 0;
        let want_oncpu: bool = self.oncpu_ctl.is_some() && self.setup_target_pid != 0;
        let mut csc_ranges: Vec<(u16, u16)> = Vec::new();
        if self.sched_ctl.is_some() {
            csc_ranges.push((SCHED_CSC, SCHED_CSC));
        }
        if want_offcpu || want_oncpu {
            csc_ranges.push((DBG_PERF_CSC_LO, DBG_PERF_CSC_HI));
        }
        RingPlan {
            kernel_buffer_events: kbe,
            target_pid: self.setup_target_pid,
            threshold_ns: in_ns(self.setup_offcpu_threshold_us, DEFAULT_OFFCPU_THRESHOLD_US),
            period_ns: in_ns(self.setup_cpu_interval_us, DEFAULT_CPU_INTERVAL_US),
            want_offcpu,
            want_oncpu,
            csc_ranges,
        }
    }

    /// One turn of the worker; None once it has to exit.
    pub fn turn(&mut self) -> (r: Option<Vec<WorkerAction>>)
        ensures
            r is None <==> old(self).exit_requested,
            r is None ==> *final(self) == (RingHost {
                wakeup: Event { signaled: false },
                ..*old(self)
            }),
            r matches Some(v) ==> {
                &&& v@ == host_actions(
                    old(self).sched_ctl,
                    old(self).offcpu_ctl,
                    old(self).oncpu_ctl,
                )
                &&& *final(self) == (RingHost {
                    wakeup: Event { signaled: false },
                    sched_ctl: after_stop(old(self).sched_ctl),
                    offcpu_ctl: after_stop(old(self).offcpu_ctl),
                    oncpu_ctl: after_stop(old(self).oncpu_ctl),
                    ..*old(self)
                })
            },
    {
        self.wakeup.reset();
        if self.exit_requested {
            return None;
        }
        let mut v: Vec<WorkerAction> = Vec::new();
        if self.any_running() {
            v.push(WorkerAction::Drain);
        }
        let (a, sa) = take_stop(self.sched_ctl);
        let (b, sb) = take_stop(self.offcpu_ctl);
        let (c, sc) = take_stop(self.oncpu_ctl);
        self.sched_ctl = a;
        self.offcpu_ctl = b;
        self.oncpu_ctl = c;
        if sa != 0 || sb != 0 || sc != 0 {
            v.push(WorkerAction::Drain);
            if sa != 0 {
                v.push(WorkerAction::StopDone(sa));
            }
            if sb != 0 {
                v.push(WorkerAction::StopDone(sb));
            }
            if sc != 0 {
                v.push(WorkerAction::StopDone(sc));
            }
        }
        assert(v@ =~= host_actions(
            old(self).sched_ctl,
            old(self).offcpu_ctl,
            old(self).oncpu_ctl,
        ));
        Some(v)
    }

    /// How the worker rests once its actions were done.
    pub fn rest(&self, interval_ns: u64) -> (r: Rest)
        ensures
            r == (if self.exit_requested {
                Rest::Exit
            } else if self.any_runs() {
                Rest::Poll(interval_ns)
            } else {
                Rest::Block
            }),
    {
        if self.exit_requested {
            Rest::Exit
        } else if self.any_running() {
            Rest::Poll(interval_ns)
        } else {
            Rest::Block
        }
    }

    /// Whether a consumer is handed what was drained.
    pub fn feeds(&self, s: Source) -> (r: bool)
        ensures
            r == runs(self.ctl(s)),
    {
        is_running(&self.get_ctl(s))
    }

    /// Count a drain of `n_events`: its number, and whether it is to be reported.
    pub fn drained(&mut self, n_events: usize) -> (r: (u64, bool))
        ensures
            r.0 == old(self).drain_calls,
            r.1 == (r.0 == 0 || macos_sched_capture::near_full(n_events as nat)),
            *final(self) == (RingHost {
                drain_calls: vstd::wrapping::u64_specs::wrapping_add(old(self).drain_calls, 1),
                ..*old(self)
            }),
    {
        let idx: u64 = self.drain_calls;
        self.drain_calls = idx.wrapping_add(1);
        (idx, idx == 0 || is_near_full(n_events))
    }

    /// Keep what a consumer has counted.
    pub fn counted(&mut self, s: Source, samples: u64)
        ensures
            *final(self) == old(self).with_ctl(
                s,
                match old(self).ctl(s) {
                    Some(c) => Some(ConsumerCtl { samples, ..c }),
                    None => None,
                },
            ),
    {
        let c: Option<ConsumerCtl> = match self.get_ctl(s) {
            Some(mut x) => {
                x.samples = samples;
                Some(x)
            },
            None => None,
        };
        self.put_ctl(s, c);
    }

    pub fn stats(&self) -> (s: RingStats)
        ensures
            s == (RingStats {
                sched_events: samples_of(self.sched_ctl),
                drain_calls: self.drain_calls,
                offcpu_samples: samples_of(self.offcpu_ctl),
                oncpu_samples: samples_of(self.oncpu_ctl),
            }),
    {
        RingStats {
            sched_events: samples_in(&self.sched_ctl),
            drain_calls: self.drain_calls,
            offcpu_samples: samples_in(&self.offcpu_ctl),
            oncpu_samples: samples_in(&self.oncpu_ctl),
        }
    }
}

pub open spec fn samples_of(c: Option<ConsumerCtl>) -> u64 {
    match c {
        Some(x) => x.samples,
        None => 0,
    }
}

fn samples_in(c: &Option<ConsumerCtl>) -> (n: u64)
    ensures
        n == samples_of(*c),
{
    match c {
        Some(x) => x.samples,
        None => 0,
    }
}

/// Every stop that is pending is acknowledged in the turn, after a drain; none is
/// acknowledged twice, and nothing is drained after the first.
pub proof fn lemma_stops_follow_a_drain(
    a: Option<ConsumerCtl>,
    b: Option<ConsumerCtl>,
    c: Option<ConsumerCtl>,
    i: int,
)
    requires
        0 <= i < host_actions(a, b, c).len(),
        host_actions(a, b, c)[i] is StopDone,
    ensures
        exists|j: int| 0 <= j < i && host_actions(a, b, c)[j] == WorkerAction::Drain,
        forall|j: int|
            i < j < host_actions(a, b, c).len() ==> (#[trigger] host_actions(a, b, c)[j])
                is StopDone,
        after_stop(a) matches Some(x) ==> x.pending_stopper == 0,
        after_stop(b) matches Some(x) ==> x.pending_stopper == 0,
        after_stop(c) matches Some(x) ==> x.pending_stopper == 0,
{
    let v = host_actions(a, b, c);
    if runs(a) || runs(b) || runs(c) {
        assert(v[0] == WorkerAction::Drain);
    } else {
        assert(v[0] == WorkerAction::Drain);
    }
}

/// Each stop that is pending is acknowledged.
pub proof fn lemma_each_stop_is_answered(
    a: Option<ConsumerCtl>,
    b: Option<ConsumerCtl>,
    c: Option<ConsumerCtl>,
)
    ensures
        stop_of(a) != 0 ==> host_actions(a, b, c).contains(WorkerAction::StopDone(stop_of(a))),
        stop_of(b) != 0 ==> host_actions(a, b, c).contains(WorkerAction::StopDone(stop_of(b))),
        stop_of(c) != 0 ==> host_actions(a, b, c).contains(WorkerAction::StopDone(stop_of(c))),
{
    let v = host_actions(a, b, c);
    let n = v.len();
    let kc: int = if stop_of(c) != 0 {
        1
    } else {
        0
    };
    let kb: int = if stop_of(b) != 0 {
        1
    } else {
        0
    };
    if stop_of(c) != 0 {
        assert(v[n - 1] == WorkerAction::StopDone(stop_of(c)));
    }
    if stop_of(b) != 0 {
        assert(v[n - 1 - kc] == WorkerAction::StopDone(stop_of(b)));
    }
    if stop_of(a) != 0 {
        assert(v[n - 1 - kc - kb] == WorkerAction::StopDone(stop_of(a)));
    }
}

/// An event of the sampler is never taken for one of the scheduler, although their
/// codes may be the same.
pub proof fn lemma_sampler_is_not_sched(e: KdEvent)
    requires
        DBG_PERF_CSC_LO <= crate::sched::ring::csc_of(e.debugid) <= DBG_PERF_CSC_HI,
    ensures
        !macos_sched_capture::taken(e, true),
{
}

/// A time of a set-up is in microseconds: what is said, or the default where nothing is.
pub proof fn lemma_time_of_set_up(us: u32, default_us: u32)
    ensures
        us > 0 ==> us_to_ns(us, default_us) == 1_000 * us,
        us == 0 ==> us_to_ns(us, default_us) == 1_000 * default_us,
{
}

} // verus!
