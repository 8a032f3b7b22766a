//! The scheduler's timeline. Of a context switch the kernel logs two events on the
//! CPU: which thread goes and which comes, and then in which state the one that
//! went is. They are put together by CPU and give two events: the outgoing thread
//! in its state, and the incoming one running.

use crate::bytes;
use crate::bytes::{low_u32, u32_as_i32, u64_as_i64};
use crate::mach;
use crate::mach::{stamp_ns, TimebaseInfo};
use crate::proto::packets;
use crate::proto::packets::write_kernel_task_state_event;
use crate::proto::sched_protos;
use crate::proto::sched_protos::{encode_kernel_process_tree, ProcessC, ThreadC};
use crate::proto::wire;
use crate::proto::writer::ProtoWriter;
use crate::sched::ring;
use crate::sched::ring::{KdEvent, KdThreadMap};
use std::collections::HashMap;
use vstd::prelude::*;
use vstd::slice::slice_to_vec;
use vstd::string::*;

verus! {

pub const MAX_CPUS: usize = 256;

pub const TP_FIELD_GENERIC_KERNEL_TASK_STATE: u32 = 117;

pub const TP_FIELD_GENERIC_KERNEL_PROCESS_TREE: u32 = 122;

pub const TS_RUNNABLE: u32 = 2;

pub const TS_RUNNING: u32 = 3;

pub const TS_INTERRUPTIBLE_SLEEP: u32 = 4;

pub const TS_UNINTERRUPTIBLE_SLEEP: u32 = 5;

pub const TS_STOPPED: u32 = 6;

pub const DEFAULT_KERNEL_BUFFER_EVENTS: i32 = 262_144;

pub const DRAIN_INTERVAL_NS: u64 = 100_000_000;

pub const DRAIN_CAPACITY_EVENTS: usize = 262_144;

pub const THREAD_MAP_CAPACITY: usize = 16_384;

/// How many threads and processes one tree names at most.
pub const MAX_NEW_THREADS: usize = 256;

pub const MAX_NEW_PROCESSES: usize = 128;

/// The codes of the scheduler's events.
pub const MACH_SCHED: u32 = 0x00;

pub const MACH_STACK_HANDOFF: u32 = 0x02;

pub const MACH_DISPATCH: u32 = 0x20;

/// The scheduler's class and subclass.
pub const SCHED_CSC: u16 = 0x0140;

/// The code in a debug id.
pub fn extract_code(debugid: u32) -> (c: u32)
    ensures
        c == ring::code_of(debugid),
{
    debugid % 0x1_0000 / 4
}

/// The state of a thread that went: stopped, where bit 1 is set; else asleep, where
/// bit 0 is, and not to be interrupted, where bit 3 is too; else ready to run.
pub open spec fn off_state(bits: u32) -> u32 {
    if bits / 2 % 2 == 1 {
        TS_STOPPED
    } else if bits % 2 == 1 {
        if bits / 8 % 2 == 1 {
            TS_UNINTERRUPTIBLE_SLEEP
        } else {
            TS_INTERRUPTIBLE_SLEEP
        }
    } else {
        TS_RUNNABLE
    }
}

/// The bits are those of the kernel's masks.
pub proof fn lemma_state_bits(bits: u32)
    ensures
        bits / 2 % 2 == 1 <==> bits & 0x02 != 0,
        bits % 2 == 1 <==> bits & 0x01 != 0,
        bits / 8 % 2 == 1 <==> bits & 0x08 != 0,
{
    assert((bits / 2 % 2 == 1) == (bits & 0x02 != 0)) by (bit_vector);
    assert((bits % 2 == 1) == (bits & 0x01 != 0)) by (bit_vector);
    assert((bits / 8 % 2 == 1) == (bits & 0x08 != 0)) by (bit_vector);
}

/// The state of a thread that went, by the kernel's masks: TH_SUSP (0x02) stops it
/// whatever else is set; TH_WAIT (0x01) without that puts it to sleep, which TH_UNINT
/// (0x08) makes one that nothing interrupts; without either it is ready to run. The
/// states are told by the numbers that a trace has for them.
pub proof fn lemma_states_by_masks(bits: u32)
    ensures
        off_state(bits) == 6 <==> bits & 0x02 != 0,
        off_state(bits) == 4 || off_state(bits) == 5 <==> bits & 0x02 == 0 && bits & 0x01 != 0,
        off_state(bits) == 5 <==> bits & 0x0b == 0x09,
        off_state(bits) == 4 <==> bits & 0x0b == 0x01,
        off_state(bits) == 2 <==> bits & 0x03 == 0,
{
    lemma_state_bits(bits);
    assert((bits & 0x0b == 0x09) == (bits & 0x02 == 0 && bits & 0x01 != 0 && bits & 0x08 != 0))
        by (bit_vector);
    assert((bits & 0x0b == 0x01) == (bits & 0x02 == 0 && bits & 0x01 != 0 && bits & 0x08 == 0))
        by (bit_vector);
    assert((bits & 0x03 == 0) == (bits & 0x02 == 0 && bits & 0x01 == 0)) by (bit_vector);
}

pub fn outgoing_task_state(state_bits: u32) -> (s: u32)
    ensures
        s == off_state(state_bits),
        s == TS_STOPPED <==> state_bits & 0x02 != 0,
        s == TS_INTERRUPTIBLE_SLEEP || s == TS_UNINTERRUPTIBLE_SLEEP <==> state_bits & 0x02 == 0
            && state_bits & 0x01 != 0,
        s == TS_UNINTERRUPTIBLE_SLEEP <==> state_bits & 0x0b == 0x09,
        s == TS_RUNNABLE <==> state_bits & 0x03 == 0,
{
    proof {
        lemma_states_by_masks(state_bits);
    }
    if state_bits / 2 % 2 == 1 {
        return TS_STOPPED;
    }
    if state_bits % 2 == 1 {
        return if state_bits / 8 % 2 == 1 {
            TS_UNINTERRUPTIBLE_SLEEP
        } else {
            TS_INTERRUPTIBLE_SLEEP
        };
    }
    TS_RUNNABLE
}

/// The first half of a switch.
#[derive(Clone, Copy, PartialEq, Eq, Structural, Debug)]
pub struct PendingSwitch {
    pub valid: bool,
    pub timestamp: u64,
    pub outgoing_tid: u64,
    pub outgoing_pri: u32,
    pub incoming_tid: u64,
    pub incoming_pri: u32,
}

pub open spec fn no_switch() -> PendingSwitch {
    PendingSwitch {
        valid: false,
        timestamp: 0,
        outgoing_tid: 0,
        outgoing_pri: 0,
        incoming_tid: 0,
        incoming_pri: 0,
    }
}

/// For each CPU, that no switch is half seen.
pub fn no_pending() -> (v: Vec<PendingSwitch>)
    ensures
        v@ == Seq::new(MAX_CPUS as nat, |i: int| no_switch()),
{
    let mut v: Vec<PendingSwitch> = Vec::new();
    let mut i: usize = 0;
    while i < MAX_CPUS
        invariant
            i <= MAX_CPUS,
            v@ == Seq::new(i as nat, |j: int| no_switch()),
        decreases MAX_CPUS - i,
    {
        v.push(
            PendingSwitch {
                valid: false,
                timestamp: 0,
                outgoing_tid: 0,
                outgoing_pri: 0,
                incoming_tid: 0,
                incoming_pri: 0,
            },
        );
        i += 1;
        assert(v@ =~= Seq::new(i as nat, |j: int| no_switch()));
    }
    v
}

/// The names of threads and processes, as they were first seen.
pub struct PtCache {
    pub threads: HashMap<u64, (i32, Vec<u8>)>,
    pub processes: HashMap<i32, (i32, Vec<u8>)>,
}

#[verifier::ext_equal]
pub struct CacheView {
    pub threads: Map<u64, (i32, Seq<u8>)>,
    pub processes: Map<i32, (i32, Seq<u8>)>,
}

impl View for PtCache {
    type V = CacheView;

    open spec fn view(&self) -> CacheView {
        CacheView {
            threads: self.threads@.map_values(|v: (i32, Vec<u8>)| (v.0, v.1@)),
            processes: self.processes@.map_values(|v: (i32, Vec<u8>)| (v.0, v.1@)),
        }
    }
}

/// What is new since the last tree.
pub struct TreeDelta {
    pub processes: Vec<ProcessC>,
    pub threads: Vec<ThreadC>,
}

#[verifier::ext_equal]
pub struct DeltaView {
    pub processes: Seq<(i64, i64, Seq<u8>)>,
    pub threads: Seq<(i64, i64, Seq<u8>)>,
}

impl View for TreeDelta {
    type V = DeltaView;

    open spec fn view(&self) -> DeltaView {
        DeltaView {
            processes: Seq::new(
                self.processes@.len(),
                |i: int|
                    (self.processes@[i].pid, self.processes@[i].ppid, self.processes@[i].cmdline@),
            ),
            threads: Seq::new(
                self.threads@.len(),
                |i: int| (self.threads@[i].tid, self.threads@[i].pid, self.threads@[i].comm@),
            ),
        }
    }
}

impl TreeDelta {
    /// No thread of a tree is marked as main or idle.
    pub open spec fn wf(self) -> bool {
        forall|i: int|
            0 <= i < self.threads@.len() ==> !(#[trigger] self.threads@[i]).is_main_thread
                && !self.threads@[i].is_idle
    }

    pub fn new() -> (d: Self)
        ensures
            d.wf(),
            d@.processes.len() == 0,
            d@.threads.len() == 0,
    {
        TreeDelta { processes: Vec::new(), threads: Vec::new() }
    }

    /// The packet of a tree; None where nothing is new.
    pub fn tree_packet(&self) -> (r: Option<Vec<u8>>)
        ensures
            r is None <==> self@.processes.len() == 0 && self@.threads.len() == 0,
            r matches Some(p) ==> p@ == wire::len_field(
                TP_FIELD_GENERIC_KERNEL_PROCESS_TREE,
                sched_protos::process_tree(self.processes@, self.threads@),
            ),
    {
        if self.threads.len() == 0 && self.processes.len() == 0 {
            return None;
        }
        let tree = encode_kernel_process_tree(self.processes.as_slice(), self.threads.as_slice());
        let mut w = ProtoWriter::new();
        w.write_message(TP_FIELD_GENERIC_KERNEL_PROCESS_TREE, tree.as_slice());
        assert(w@ =~= wire::len_field(
            TP_FIELD_GENERIC_KERNEL_PROCESS_TREE,
            sched_protos::process_tree(self.processes@, self.threads@),
        ));
        Some(w.into_bytes())
    }
}

/// Whether an entry of the thread map says nothing of use.
pub open spec fn skipped(t: KdThreadMap) -> bool {
    t.thread == 0 || t.pid <= 0
}

/// Whether a thread is known, as one of this process.
pub open spec fn known(c: CacheView, tid: u64, pid: i32) -> bool {
    c.threads.dom().contains(tid) && c.threads[tid].0 == pid
}

/// What is given, or what to take else.
pub open spec fn or_else(name: Option<Seq<u8>>, other: Seq<u8>) -> Seq<u8> {
    match name {
        Some(n) => n,
        None => other,
    }
}

pub open spec fn opt_bytes(v: Option<Vec<u8>>) -> Option<Seq<u8>> {
    match v {
        Some(b) => Some(b@),
        None => None,
    }
}

pub open spec fn opt_bits(v: Option<u32>) -> i32 {
    match v {
        Some(n) => bytes::bits_to_i32(n as int),
        None => 0,
    }
}

pub open spec fn push_below<T>(s: Seq<T>, x: T, cap: nat) -> Seq<T> {
    if s.len() < cap {
        s.push(x)
    } else {
        s
    }
}

/// What an entry of the thread map adds to what is known, and to the tree. A thread
/// that is new gets its name, or that of the entry; its process, where that is new,
/// gets its parent and path.
pub open spec fn learned(
    c: CacheView,
    d: DeltaView,
    t: KdThreadMap,
    name: Option<Seq<u8>>,
    ppid: Option<u32>,
    path: Option<Seq<u8>>,
) -> (CacheView, DeltaView) {
    if skipped(t) || known(c, t.thread, t.pid) {
        (c, d)
    } else {
        let n = or_else(name, t.name());
        let c1 = CacheView { threads: c.threads.insert(t.thread, (t.pid, n)), ..c };
        let d1 = DeltaView {
            threads: push_below(
                d.threads,
                (bytes::bits_to_i64(t.thread as int), t.pid as i64, n),
                MAX_NEW_THREADS as nat,
            ),
            ..d
        };
        if c.processes.dom().contains(t.pid) {
            (c1, d1)
        } else {
            let pp = opt_bits(ppid);
            let pa = or_else(path, Seq::empty());
            (
                CacheView { processes: c.processes.insert(t.pid, (pp, pa)), ..c1 },
                DeltaView {
                    processes: push_below(
                        d.processes,
                        (t.pid as i64, pp as i64, pa),
                        MAX_NEW_PROCESSES as nat,
                    ),
                    ..d1
                },
            )
        }
    }
}

/// The name of a thread: the one that is known, where it is not empty; else that of
/// the first entry of the thread map; else a question mark.
pub open spec fn comm_of(c: CacheView, threads: Seq<KdThreadMap>, tid: u64) -> Seq<u8> {
    if c.threads.dom().contains(tid) && c.threads[tid].1.len() > 0 {
        c.threads[tid].1
    } else {
        map_name(threads, tid)
    }
}

pub open spec fn map_name(threads: Seq<KdThreadMap>, tid: u64) -> Seq<u8>
    decreases threads.len(),
{
    if threads.len() == 0 {
        "?".spec_bytes()
    } else if threads[0].thread == tid {
        threads[0].name()
    } else {
        map_name(threads.drop_first(), tid)
    }
}

impl PtCache {
    pub fn new() -> (c: Self)
        ensures
            c@ == (CacheView { threads: Map::empty(), processes: Map::empty() }),
    {
        let c = PtCache { threads: HashMap::new(), processes: HashMap::new() };
        assert(c@ =~= CacheView { threads: Map::empty(), processes: Map::empty() });
        c
    }

    /// Whether an entry of the thread map names a thread that is new.
    pub fn needs_thread(&self, t: &KdThreadMap) -> (r: bool)
        ensures
            r == (!skipped(*t) && !known(self@, t.thread, t.pid)),
    {
        if t.thread == 0 || t.pid <= 0 {
            return false;
        }
        match self.threads.get(&t.thread) {
            Some(v) => {
                assert(self@.threads[t.thread].0 == v.0);
                v.0 != t.pid
            },
            None => true,
        }
    }

    /// Whether a process is new.
    pub fn needs_process(&self, pid: i32) -> (r: bool)
        ensures
            r == !self@.processes.dom().contains(pid),
    {
        !self.processes.contains_key(&pid)
    }

    /// Take in an entry of the thread map, with what was found out about its thread
    /// and its process.
    pub fn learn(
        &mut self,
        delta: &mut TreeDelta,
        t: &KdThreadMap,
        name: Option<Vec<u8>>,
        ppid: Option<u32>,
        path: Option<Vec<u8>>,
    )
        requires
            old(delta).wf(),
        ensures
            final(delta).wf(),
            (final(self)@, final(delta)@) == learned(
                old(self)@,
                old(delta)@,
                *t,
                opt_bytes(name),
                ppid,
                opt_bytes(path),
            ),
    {
        if !self.needs_thread(t) {
            return;
        }
        let ghost c0 = self@;
        let ghost d0 = delta@;
        let comm = match name {
            Some(n) => n,
            None => t.command_bytes(),
        };
        let ghost n = comm@;
        let new_process: bool = self.needs_process(t.pid);
        let kept = slice_to_vec(comm.as_slice());
        self.threads.insert(t.thread, (t.pid, kept));
        assert(self@.threads =~= c0.threads.insert(t.thread, (t.pid, n)));
        if delta.threads.len() < MAX_NEW_THREADS {
            delta.threads.push(
                ThreadC {
                    tid: u64_as_i64(t.thread),
                    pid: t.pid as i64,
                    comm,
                    is_main_thread: false,
                    is_idle: false,
                },
            );
        }
        assert(delta@.threads =~= push_below(
            d0.threads,
            (bytes::bits_to_i64(t.thread as int), t.pid as i64, n),
            MAX_NEW_THREADS as nat,
        ));
        assert(delta@.processes =~= d0.processes);
        if new_process {
            let pp: i32 = match ppid {
                Some(p) => u32_as_i32(p),
                None => 0,
            };
            let pa = match path {
                Some(p) => p,
                None => Vec::new(),
            };
            let ghost pv = pa@;
            assert(pv =~= or_else(opt_bytes(path), Seq::empty()));
            let kept_path = slice_to_vec(pa.as_slice());
            self.processes.insert(t.pid, (pp, kept_path));
            assert(self@.processes =~= c0.processes.insert(t.pid, (pp, pv)));
            if delta.processes.len() < MAX_NEW_PROCESSES {
                delta.processes.push(ProcessC { pid: t.pid as i64, ppid: pp as i64, cmdline: pa });
            }
            assert(delta@.processes =~= push_below(
                d0.processes,
                (t.pid as i64, pp as i64, pv),
                MAX_NEW_PROCESSES as nat,
            ));
        }
    }

    /// The name of a thread.
    pub fn lookup_comm(&self, threads: &[KdThreadMap], tid: u64) -> (r: Vec<u8>)
        ensures
            r@ == comm_of(self@, threads@, tid),
    {
        if let Some(v) = self.threads.get(&tid) {
            assert(self@.threads[tid].1 == v.1@);
            if v.1.len() > 0 {
                return slice_to_vec(v.1.as_slice());
            }
        }
        let mut i: usize = 0;
        assert(threads@.skip(0) =~= threads@);
        while i < threads.len()
            invariant
                i <= threads@.len(),
                comm_of(self@, threads@, tid) == map_name(threads@, tid),
                map_name(threads@.skip(i as int), tid) == map_name(threads@, tid),
            decreases threads@.len() - i,
        {
            if threads[i].thread == tid {
                return threads[i].command_bytes();
            }
            assert(threads@.skip(i as int).drop_first() =~= threads@.skip(i + 1));
            i += 1;
        }
        slice_to_vec("?".as_bytes())
    }
}

/// The packet of a thread that is in a state from `ts_ns` on.
pub open spec fn task_state_packet(
    ts_ns: u64,
    cpu: i32,
    comm: Seq<u8>,
    tid: u64,
    state: u32,
    prio: u32,
) -> Seq<u8> {
    wire::nonzero_field(8, ts_ns) + wire::sub_message(
        TP_FIELD_GENERIC_KERNEL_TASK_STATE,
        packets::kernel_task_state_body(
            cpu,
            comm,
            bytes::bits_to_i64(tid as int),
            state,
            bytes::bits_to_i32(prio as int),
        ),
    )
}

pub fn encode_task_state(ts_ns: u64, cpu: i32, comm: &[u8], tid: u64, state: u32, prio: u32) -> (r:
    Vec<u8>)
    ensures
        r@ == task_state_packet(ts_ns, cpu, comm@, tid, state, prio),
{
    let mut w = ProtoWriter::new();
    w.write_nonzero(8, ts_ns);
    write_kernel_task_state_event(
        &mut w,
        TP_FIELD_GENERIC_KERNEL_TASK_STATE,
        cpu,
        comm,
        u64_as_i64(tid),
        state,
        u32_as_i32(prio),
    );
    assert(w@ =~= task_state_packet(ts_ns, cpu, comm@, tid, state, prio));
    w.into_bytes()
}

/// A switch that an event has completed: the switch, and the bits of the state that
/// the outgoing thread is in.
pub type Completed = Option<(PendingSwitch, u32)>;

/// What an event does to the switch that its CPU has half seen: a switch of a
/// thread to itself is passed over; the second half has to be of the outgoing
/// thread, and takes the first half away in any case.
pub open spec fn pair_step(p: PendingSwitch, e: KdEvent) -> (PendingSwitch, Completed) {
    let code = ring::code_of(e.debugid);
    if code == MACH_SCHED || code == MACH_STACK_HANDOFF {
        if e.arg5 == e.arg2 {
            (p, None)
        } else {
            (
                PendingSwitch {
                    valid: true,
                    timestamp: e.timestamp,
                    outgoing_tid: e.arg5,
                    outgoing_pri: (e.arg3 % 0x1_0000_0000) as u32,
                    incoming_tid: e.arg2,
                    incoming_pri: (e.arg4 % 0x1_0000_0000) as u32,
                },
                None,
            )
        }
    } else if code == MACH_DISPATCH {
        if !p.valid {
            (p, None)
        } else if p.outgoing_tid != e.arg1 {
            (PendingSwitch { valid: false, ..p }, None)
        } else {
            (
                PendingSwitch { valid: false, ..p },
                Some((p, (e.arg3 % 0x1_0000_0000) as u32)),
            )
        }
    } else {
        (p, None)
    }
}

pub fn pair(p: PendingSwitch, e: &KdEvent) -> (r: (PendingSwitch, Completed))
    ensures
        r == pair_step(p, *e),
{
    let code: u32 = e.code();
    if code == MACH_SCHED || code == MACH_STACK_HANDOFF {
        if e.arg5 == e.arg2 {
            return (p, None);
        }
        let next = PendingSwitch {
            valid: true,
            timestamp: e.timestamp,
            outgoing_tid: e.arg5,
            outgoing_pri: low_u32(e.arg3),
            incoming_tid: e.arg2,
            incoming_pri: low_u32(e.arg4),
        };
        return (next, None);
    }
    if code == MACH_DISPATCH {
        if !p.valid {
            return (p, None);
        }
        let mut next = p;
        next.valid = false;
        if p.outgoing_tid != e.arg1 {
            return (next, None);
        }
        return (next, Some((p, low_u32(e.arg3))));
    }
    (p, None)
}

/// The two packets of a switch on a CPU.
pub open spec fn switch_packets(
    c: CacheView,
    threads: Seq<KdThreadMap>,
    tb: TimebaseInfo,
    cpu: i32,
    p: PendingSwitch,
    bits: u32,
) -> Seq<Seq<u8>> {
    let ts = mach::stamp(p.timestamp, tb);
    seq![
        task_state_packet(
            ts,
            cpu,
            comm_of(c, threads, p.outgoing_tid),
            p.outgoing_tid,
            off_state(bits),
            p.outgoing_pri,
        ),
        task_state_packet(
            ts,
            cpu,
            comm_of(c, threads, p.incoming_tid),
            p.incoming_tid,
            TS_RUNNING,
            p.incoming_pri,
        ),
    ]
}

/// Whether an event is taken in: of a CPU there is room for, and, where the ring
/// carries the events of others too, of the scheduler.
pub open spec fn taken(e: KdEvent, only_sched: bool) -> bool {
    e.cpuid < MAX_CPUS && (only_sched ==> ring::csc_of(e.debugid) == SCHED_CSC)
}

/// The switches that are half seen, and the packets so far, after `n` events.
pub open spec fn batch(
    pending: Seq<PendingSwitch>,
    c: CacheView,
    threads: Seq<KdThreadMap>,
    tb: TimebaseInfo,
    only_sched: bool,
    events: Seq<KdEvent>,
    n: nat,
) -> (Seq<PendingSwitch>, Seq<Seq<u8>>)
    decreases n,
{
    if n == 0 {
        (pending, Seq::empty())
    } else {
        let (ps, out) = batch(pending, c, threads, tb, only_sched, events, (n - 1) as nat);
        let e = events[n - 1];
        if !taken(e, only_sched) {
            (ps, out)
        } else {
            let (p, done) = pair_step(ps[e.cpuid as int], e);
            (
                ps.update(e.cpuid as int, p),
                match done {
                    Some(d) => out + switch_packets(c, threads, tb, e.cpuid as i32, d.0, d.1),
                    None => out,
                },
            )
        }
    }
}

/// The timeline of a stream of events.
pub struct SwitchPairer {
    pub pending: Vec<PendingSwitch>,
    pub tb: TimebaseInfo,
    /// Whether the ring carries the events of others too.
    pub only_sched: bool,
}

impl SwitchPairer {
    pub open spec fn wf(self) -> bool {
        self.pending@.len() == MAX_CPUS && self.tb.wf()
    }

    pub fn new(tb: TimebaseInfo, only_sched: bool) -> (s: Self)
        requires
            tb.wf(),
        ensures
            s.wf(),
            s.pending@ == Seq::new(MAX_CPUS as nat, |i: int| no_switch()),
            s.tb == tb,
            s.only_sched == only_sched,
    {
        SwitchPairer { pending: no_pending(), tb, only_sched }
    }

    /// The packets of a batch of events.
    pub fn emit_batch(&mut self, events: &[KdEvent], threads: &[KdThreadMap], cache: &PtCache) -> (r:
        Vec<Vec<u8>>)
        requires
            old(self).wf(),
        ensures
            final(self).wf(),
            final(self).tb == old(self).tb,
            final(self).only_sched == old(self).only_sched,
            (final(self).pending@, crate::intern::rows(r@)) == batch(
                old(self).pending@,
                cache@,
                threads@,
                old(self).tb,
                old(self).only_sched,
                events@,
                events@.len(),
            ),
    {
        let ghost start = self.pending@;
        let mut r: Vec<Vec<u8>> = Vec::new();
        assert(crate::intern::rows(r@) =~= Seq::empty());
        let mut i: usize = 0;
        while i < events.len()
            invariant
                i <= events@.len(),
                self.wf(),
                self.tb == old(self).tb,
                self.only_sched == old(self).only_sched,
                (self.pending@, crate::intern::rows(r@)) == batch(
                    start,
                    cache@,
                    threads@,
                    self.tb,
                    self.only_sched,
                    events@,
                    i as nat,
                ),
            decreases events@.len() - i,
        {
            let e = events[i];
            let cpu: usize = e.cpuid as usize;
            if cpu < MAX_CPUS && (!self.only_sched || e.csc() == SCHED_CSC) {
                let (p, done) = pair(self.pending[cpu], &e);
                self.pending.set(cpu, p);
                if let Some((s, bits)) = done {
                    let ts_ns: u64 = stamp_ns(s.timestamp, self.tb);
                    let off_comm = cache.lookup_comm(threads, s.outgoing_tid);
                    let on_comm = cache.lookup_comm(threads, s.incoming_tid);
                    let off = encode_task_state(
                        ts_ns,
                        cpu as i32,
                        off_comm.as_slice(),
                        s.outgoing_tid,
                        outgoing_task_state(bits),
                        s.outgoing_pri,
                    );
                    let on = encode_task_state(
                        ts_ns,
                        cpu as i32,
                        on_comm.as_slice(),
                        s.incoming_tid,
                        TS_RUNNING,
                        s.incoming_pri,
                    );
                    let ghost before = crate::intern::rows(r@);
                    let ghost two = seq![off@, on@];
                    r.push(off);
                    r.push(on);
                    assert(crate::intern::rows(r@) =~= before + two);
                    assert(two =~= switch_packets(
                        cache@,
                        threads@,
                        self.tb,
                        e.cpuid as i32,
                        s,
                        bits,
                    ));
                }
            }
            i += 1;
        }
        r
    }
}

/// The number of packets is even: each switch gives two.
pub proof fn lemma_two_for_each_switch(
    pending: Seq<PendingSwitch>,
    c: CacheView,
    threads: Seq<KdThreadMap>,
    tb: TimebaseInfo,
    only_sched: bool,
    events: Seq<KdEvent>,
    n: nat,
)
    requires
        n <= events.len(),
    ensures
        batch(pending, c, threads, tb, only_sched, events, n).1.len() % 2 == 0,
    decreases n,
{
    if n > 0 {
        lemma_two_for_each_switch(
            pending,
            c,
            threads,
            tb,
            only_sched,
            events,
            (n - 1) as nat,
        );
    }
}

/// The two halves of a switch, one after the other on one CPU, make it whole; no
/// second half makes another switch of it.
pub proof fn lemma_halves_make_a_switch(p: PendingSwitch, first: KdEvent, second: KdEvent)
    requires
        ring::code_of(first.debugid) == MACH_SCHED || ring::code_of(first.debugid)
            == MACH_STACK_HANDOFF,
        first.arg5 != first.arg2,
        ring::code_of(second.debugid) == MACH_DISPATCH,
        second.arg1 == first.arg5,
    ensures
        ({
            let a = pair_step(p, first).0;
            let b = pair_step(a, second);
            &&& b.1 matches Some(s) && s.0.outgoing_tid == first.arg5 && s.0.incoming_tid
                == first.arg2 && s.0.timestamp == first.timestamp
            &&& !b.0.valid
            &&& pair_step(b.0, second).1 is None
        }),
{
}

/// What a reader of a task-state packet finds: the moment under 8, and under 117 the
/// CPU, the thread, its state and its priority, each number as the kernel gave it.
#[verifier::spinoff_prover]
#[verifier::rlimit(40)]
pub proof fn lemma_task_state_read_back(
    ts_ns: u64,
    cpu: i32,
    comm: Seq<u8>,
    tid: u64,
    state: u32,
    prio: u32,
)
    requires
        cpu >= 0,
    ensures
        ({
            let p = task_state_packet(ts_ns, cpu, comm, tid, state, prio);
            exists|body: Seq<u8>|
                {
                    &&& #[trigger] wire::one_text(body) == wire::under(p, 117)
                    &&& wire::under(p, 8) == wire::one_unless_zero(ts_ns)
                    &&& wire::under(body, 1) == wire::one(cpu as u64)
                    &&& wire::under(body, 3) == wire::one(tid)
                    &&& wire::under(body, 4) == wire::one(state as u64)
                    &&& wire::under(body, 5) == wire::one(prio as u64)
                    &&& 0 < comm.len() <= 64 ==> wire::under(body, 2) == wire::one_text(comm)
                    &&& comm.len() > 64 ==> wire::under(body, 2) == wire::one_text(comm.take(64))
                }
        }),
{
    let t = bytes::bits_to_i64(tid as int);
    let q = bytes::bits_to_i32(prio as int);
    let name = packets::capped_comm(comm);
    let a = wire::varint_field(1, wire::int32_bits(cpu));
    let b = wire::nonempty_field(2, name);
    let c = wire::varint_field(3, wire::int64_bits(t));
    let d = wire::varint_field(4, state as u64);
    let e = wire::varint_field(5, wire::int32_bits(q));
    assert(wire::int64_bits(t) == tid);
    assert(wire::int32_bits(q) == prio);
    wire::lemma_under_varint(1, wire::int32_bits(cpu));
    wire::lemma_under_nonempty(2, name);
    wire::lemma_under_varint(3, wire::int64_bits(t));
    wire::lemma_under_varint(4, state as u64);
    wire::lemma_under_varint(5, wire::int32_bits(q));
    wire::lemma_join(a, b);
    wire::lemma_join(a + b, c);
    wire::lemma_join(a + b + c, d);
    wire::lemma_join(a + b + c + d, e);
    let body = packets::kernel_task_state_body(cpu, comm, t, state, q);
    assert(body == a + b + c + d + e);
    assert(wire::under(body, 1) =~= wire::one(cpu as u64));
    assert(wire::under(body, 2) =~= wire::under(b, 2));
    assert(wire::under(body, 3) =~= wire::one(tid));
    assert(wire::under(body, 4) =~= wire::one(state as u64));
    assert(wire::under(body, 5) =~= wire::one(prio as u64));
    let h = wire::nonzero_field(8, ts_ns);
    let m = wire::sub_message(TP_FIELD_GENERIC_KERNEL_TASK_STATE, body);
    wire::lemma_under_nonzero(8, ts_ns);
    wire::lemma_under_sub_message(TP_FIELD_GENERIC_KERNEL_TASK_STATE, body);
    wire::lemma_join(h, m);
    assert(wire::under(h + m, 117) =~= wire::one_text(body));
    assert(wire::under(h + m, 8) =~= wire::one_unless_zero(ts_ns));
}

/// What a packet says of a thread: from a moment on it is in a state, on a CPU and
/// with a priority.
pub open spec fn says(p: Seq<u8>, ts_ns: u64, cpu: u64, tid: u64, state: u64, prio: u64) -> bool {
    exists|body: Seq<u8>|
        {
            &&& #[trigger] wire::one_text(body) == wire::under(p, 117)
            &&& wire::under(p, 8) == wire::one_unless_zero(ts_ns)
            &&& wire::under(body, 1) == wire::one(cpu)
            &&& wire::under(body, 3) == wire::one(tid)
            &&& wire::under(body, 4) == wire::one(state)
            &&& wire::under(body, 5) == wire::one(prio)
        }
}

/// The law of the timeline: where the two halves of a switch follow one another on a
/// CPU, the batch grows by two packets. The first says that the thread that the switch
/// takes away is in its state from the moment of the switch on, the second that the
/// one that it brings runs (3) from that moment on; both are on the CPU of the events,
/// each with its own priority.
pub proof fn lemma_switch_is_told(
    pending: Seq<PendingSwitch>,
    c: CacheView,
    threads: Seq<KdThreadMap>,
    tb: TimebaseInfo,
    only_sched: bool,
    events: Seq<KdEvent>,
    n: nat,
)
    requires
        pending.len() == MAX_CPUS,
        n + 2 <= events.len(),
        taken(events[n as int], only_sched),
        taken(events[(n + 1) as int], only_sched),
        events[n as int].cpuid == events[(n + 1) as int].cpuid,
        ring::code_of(events[n as int].debugid) == 0x00 || ring::code_of(events[n as int].debugid)
            == 0x02,
        ring::code_of(events[(n + 1) as int].debugid) == 0x20,
        events[n as int].arg5 != events[n as int].arg2,
        events[(n + 1) as int].arg1 == events[n as int].arg5,
    ensures
        ({
            let before = batch(pending, c, threads, tb, only_sched, events, n).1;
            let after = batch(pending, c, threads, tb, only_sched, events, n + 2).1;
            let first = events[n as int];
            let second = events[(n + 1) as int];
            let ts = mach::stamp(first.timestamp, tb);
            &&& after.len() == before.len() + 2
            &&& before.is_prefix_of(after)
            &&& says(
                after[before.len() as int],
                ts,
                first.cpuid as u64,
                first.arg5,
                off_state((second.arg3 % 0x1_0000_0000) as u32) as u64,
                (first.arg3 % 0x1_0000_0000) as u64,
            )
            &&& says(
                after[(before.len() + 1) as int],
                ts,
                first.cpuid as u64,
                first.arg2,
                3,
                (first.arg4 % 0x1_0000_0000) as u64,
            )
        }),
{
    lemma_pending_len(pending, c, threads, tb, only_sched, events, n);
    let first = events[n as int];
    let second = events[(n + 1) as int];
    let (ps, out) = batch(pending, c, threads, tb, only_sched, events, n);
    let cpu = first.cpuid as int;
    let a = pair_step(ps[cpu], first).0;
    assert(batch(pending, c, threads, tb, only_sched, events, n + 1) == (ps.update(cpu, a), out));
    assert(ps.update(cpu, a)[cpu] == a);
    let bits = (second.arg3 % 0x1_0000_0000) as u32;
    assert(pair_step(a, second).1 == Some((a, bits)));
    let two = switch_packets(c, threads, tb, first.cpuid as i32, a, bits);
    let after = batch(pending, c, threads, tb, only_sched, events, n + 2).1;
    assert(after == out + two);
    assert(after[out.len() as int] == two[0]);
    assert(after[(out.len() + 1) as int] == two[1]);
    let ts = mach::stamp(a.timestamp, tb);
    lemma_task_state_read_back(
        ts,
        first.cpuid as i32,
        comm_of(c, threads, a.outgoing_tid),
        a.outgoing_tid,
        off_state(bits),
        a.outgoing_pri,
    );
    lemma_task_state_read_back(
        ts,
        first.cpuid as i32,
        comm_of(c, threads, a.incoming_tid),
        a.incoming_tid,
        TS_RUNNING,
        a.incoming_pri,
    );
}

proof fn lemma_pending_len(
    pending: Seq<PendingSwitch>,
    c: CacheView,
    threads: Seq<KdThreadMap>,
    tb: TimebaseInfo,
    only_sched: bool,
    events: Seq<KdEvent>,
    n: nat,
)
    requires
        n <= events.len(),
        pending.len() == MAX_CPUS,
    ensures
        batch(pending, c, threads, tb, only_sched, events, n).0.len() == MAX_CPUS,
    decreases n,
{
    if n > 0 {
        lemma_pending_len(pending, c, threads, tb, only_sched, events, (n - 1) as nat);
    }
}

/// A thread that the cache does not name has the name of its first entry in the
/// thread map, whatever entries of other threads come before it.
pub proof fn lemma_first_entry_names(c: CacheView, threads: Seq<KdThreadMap>, tid: u64, i: int)
    requires
        0 <= i < threads.len(),
        threads[i].thread == tid,
        forall|j: int| 0 <= j < i ==> (#[trigger] threads[j]).thread != tid,
        !c.threads.dom().contains(tid),
    ensures
        comm_of(c, threads, tid) == threads[i].name(),
    decreases i,
{
    if i > 0 {
        assert(threads[0].thread != tid);
        let rest = threads.drop_first();
        assert forall|j: int| 0 <= j < i - 1 implies (#[trigger] rest[j]).thread != tid by {
            assert(rest[j] == threads[j + 1]);
        }
        lemma_first_entry_names(c, rest, tid, i - 1);
    }
}

/// An event of one CPU leaves what another has seen.
pub proof fn lemma_cpus_are_apart(
    pending: Seq<PendingSwitch>,
    c: CacheView,
    threads: Seq<KdThreadMap>,
    tb: TimebaseInfo,
    only_sched: bool,
    events: Seq<KdEvent>,
    n: nat,
    cpu: int,
)
    requires
        pending.len() == MAX_CPUS,
        n <= events.len(),
        0 <= cpu < MAX_CPUS,
        forall|i: int| 0 <= i < n ==> (#[trigger] events[i]).cpuid != cpu,
    ensures
        batch(pending, c, threads, tb, only_sched, events, n).0.len() == MAX_CPUS,
        batch(pending, c, threads, tb, only_sched, events, n).0[cpu] == pending[cpu],
    decreases n,
{
    if n > 0 {
        lemma_cpus_are_apart(
            pending,
            c,
            threads,
            tb,
            only_sched,
            events,
            (n - 1) as nat,
            cpu,
        );
    }
}

/// A thread that was learned is known, and is not named again.
pub proof fn lemma_named_once(
    c: CacheView,
    d: DeltaView,
    t: KdThreadMap,
    name: Option<Seq<u8>>,
    ppid: Option<u32>,
    path: Option<Seq<u8>>,
    e: DeltaView,
)
    ensures
        ({
            let c1 = learned(c, d, t, name, ppid, path).0;
            &&& !skipped(t) ==> known(c1, t.thread, t.pid)
            &&& learned(c1, e, t, name, ppid, path) == (c1, e)
        }),
{
}

/// What the capture reports when it shuts down.
#[derive(Clone, Copy, PartialEq, Eq, Structural, Debug)]
pub struct SchedStats {
    pub events_emitted: u64,
    pub drain_calls: u64,
}

/// The capture: the timeline, the names, and what it has counted.
pub struct SchedCapture {
    pub pairer: SwitchPairer,
    pub cache: PtCache,
    pub stats: SchedStats,
}

/// How many events the kernel's buffer holds: what the set-up says, or the default.
pub fn buffer_events(setup: i32, default: i32) -> (n: i32)
    ensures
        n == (if setup != 0 {
            setup
        } else {
            default
        }),
{
    if setup != 0 {
        setup
    } else {
        default
    }
}

impl SchedCapture {
    pub open spec fn wf(self) -> bool {
        self.pairer.wf()
    }

    pub fn new(tb: TimebaseInfo) -> (s: Self)
        requires
            tb.wf(),
        ensures
            s.wf(),
            s.pairer.tb == tb,
            !s.pairer.only_sched,
            s.pairer.pending@ == Seq::new(MAX_CPUS as nat, |i: int| no_switch()),
            s.cache@ == (CacheView { threads: Map::empty(), processes: Map::empty() }),
            s.stats == (SchedStats { events_emitted: 0, drain_calls: 0 }),
    {
        SchedCapture {
            pairer: SwitchPairer::new(tb, false),
            cache: PtCache::new(),
            stats: SchedStats { events_emitted: 0, drain_calls: 0 },
        }
    }

    /// The packets of a drained batch, and whether the drain is to be reported: the
    /// first is, and one that came near to filling the buffer.
    pub fn drain_once(&mut self, events: &[KdEvent], threads: &[KdThreadMap]) -> (r: (
        Vec<Vec<u8>>,
        bool,
    ))
        requires
            old(self).wf(),
        ensures
            final(self).wf(),
            final(self).cache == old(self).cache,
            final(self).pairer.tb == old(self).pairer.tb,
            final(self).pairer.only_sched == old(self).pairer.only_sched,
            (final(self).pairer.pending@, crate::intern::rows(r.0@)) == batch(
                old(self).pairer.pending@,
                old(self).cache@,
                threads@,
                old(self).pairer.tb,
                old(self).pairer.only_sched,
                events@,
                events@.len(),
            ),
            final(self).stats == (SchedStats {
                events_emitted: vstd::wrapping::u64_specs::wrapping_add(
                    old(self).stats.events_emitted,
                    r.0@.len() as u64,
                ),
                drain_calls: vstd::wrapping::u64_specs::wrapping_add(
                    old(self).stats.drain_calls,
                    1,
                ),
            }),
            r.1 == (old(self).stats.drain_calls == 0 || near_full(events@.len())),
    {
        let packets = self.pairer.emit_batch(events, threads, &self.cache);
        let first: bool = self.stats.drain_calls == 0;
        self.stats = SchedStats {
            events_emitted: self.stats.events_emitted.wrapping_add(packets.len() as u64),
            drain_calls: self.stats.drain_calls.wrapping_add(1),
        };
        (packets, first || is_near_full(events.len()))
    }
}

/// Whether a drain came near to filling the buffer: nine tenths of it.
pub open spec fn near_full(n: nat) -> bool {
    n >= DRAIN_CAPACITY_EVENTS * 9 / 10
}

pub fn is_near_full(n: usize) -> (r: bool)
    ensures
        r == near_full(n as nat),
{
    n >= DRAIN_CAPACITY_EVENTS * 9 / 10
}

/// Whether a packet names its thread so.
pub open spec fn names(p: Seq<u8>, tid: u64, comm: Seq<u8>) -> bool {
    exists|body: Seq<u8>|
        {
            &&& #[trigger] wire::one_text(body) == wire::under(p, 117)
            &&& wire::under(body, 3) == wire::one(tid)
            &&& 0 < comm.len() <= 64 ==> wire::under(body, 2) == wire::one_text(comm)
            &&& comm.len() > 64 ==> wire::under(body, 2) == wire::one_text(comm.take(64))
        }
}

/// Each packet of a switch names its own thread: the first the one that went, the second
/// the one that came.
pub proof fn lemma_switch_names_threads(
    c: CacheView,
    threads: Seq<KdThreadMap>,
    tb: TimebaseInfo,
    cpu: i32,
    p: PendingSwitch,
    bits: u32,
)
    requires
        cpu >= 0,
    ensures
        ({
            let v = switch_packets(c, threads, tb, cpu, p, bits);
            &&& v.len() == 2
            &&& names(v[0], p.outgoing_tid, comm_of(c, threads, p.outgoing_tid))
            &&& names(v[1], p.incoming_tid, comm_of(c, threads, p.incoming_tid))
        }),
{
    let ts = mach::stamp(p.timestamp, tb);
    lemma_task_state_read_back(
        ts,
        cpu,
        comm_of(c, threads, p.outgoing_tid),
        p.outgoing_tid,
        off_state(bits),
        p.outgoing_pri,
    );
    lemma_task_state_read_back(
        ts,
        cpu,
        comm_of(c, threads, p.incoming_tid),
        p.incoming_tid,
        TS_RUNNING,
        p.incoming_pri,
    );
}

/// What an event does that completes no switch: a thread that switches to itself and an
/// event of another kind change nothing, a new first half takes the place of the one
/// before it, and a second half of another thread takes the first half away.
pub proof fn lemma_half_switches(p: PendingSwitch, e: KdEvent)
    ensures
        ({
            let code = ring::code_of(e.debugid);
            let (q, done) = pair_step(p, e);
            &&& code != 0x00 && code != 0x02 && code != 0x20 ==> q == p && done is None
            &&& (code == 0x00 || code == 0x02) && e.arg5 == e.arg2 ==> q == p && done is None
            &&& (code == 0x00 || code == 0x02) && e.arg5 != e.arg2 ==> done is None && q.valid
                && q.outgoing_tid == e.arg5 && q.incoming_tid == e.arg2 && q.timestamp
                == e.timestamp && q.outgoing_pri == e.arg3 % 0x1_0000_0000 && q.incoming_pri
                == e.arg4 % 0x1_0000_0000
            &&& code == 0x20 ==> !q.valid
            &&& code == 0x20 && (!p.valid || p.outgoing_tid != e.arg1) ==> done is None
            &&& code == 0x20 && p.valid && p.outgoing_tid == e.arg1 ==> done == Some(
                (p, (e.arg3 % 0x1_0000_0000) as u32),
            )
        }),
{
}

/// What is learned of a thread that is new: it has its own name where it has one, else that
/// of its entry; its process, where that is new too, has its parent and its path, as far as
/// they could be read. Threads and processes that are known are left as they are, and an
/// entry without a thread or without a process says nothing.
#[verifier::spinoff_prover]
#[verifier::rlimit(40)]
pub proof fn lemma_learned(
    c: CacheView,
    d: DeltaView,
    t: KdThreadMap,
    name: Option<Seq<u8>>,
    ppid: Option<u32>,
    path: Option<Seq<u8>>,
)
    ensures
        ({
            let (c1, d1) = learned(c, d, t, name, ppid, path);
            let fresh = t.thread != 0 && t.pid > 0 && !(c.threads.dom().contains(t.thread)
                && c.threads[t.thread].0 == t.pid);
            let own = if name is Some {
                name->0
            } else {
                t.name()
            };
            let new_process = fresh && !c.processes.dom().contains(t.pid);
            &&& !fresh ==> (c1, d1) == (c, d)
            &&& fresh ==> c1.threads == c.threads.insert(t.thread, (t.pid, own))
            &&& fresh && d.threads.len() < 256 ==> d1.threads.len() == d.threads.len() + 1
                && d1.threads.last().1 == t.pid && d1.threads.last().2 == own && (
            t.thread < 0x8000_0000_0000_0000 ==> d1.threads.last().0 == t.thread)
            &&& !new_process ==> c1.processes == c.processes && d1.processes == d.processes
            &&& new_process && d.processes.len() < 128 ==> d1.processes.len()
                == d.processes.len() + 1 && d1.processes.last().0 == t.pid && (ppid matches Some(
                p,
            ) ==> p < 0x8000_0000 ==> d1.processes.last().1 == p) && (ppid is None
                ==> d1.processes.last().1 == 0) && d1.processes.last().2 == (if path is Some {
                path->0
            } else {
                Seq::empty()
            })
            &&& d.threads.is_prefix_of(d1.threads)
            &&& d.processes.is_prefix_of(d1.processes)
        }),
{
}

} // verus!
