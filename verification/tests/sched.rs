//! The scheduler's events and the kernel's samples.

use sismo::mach::{ns_to_ticks, stamp_ns, ticks_to_ns, TimebaseInfo};
use sismo::proc_info::{sismo_proc_parent_pid, sismo_proc_pid_path, sismo_proc_thread_name};
use sismo::proto::reader::{all_fields, WireValue};
use sismo::proto::sismo_config::{cpu_encode, sched_encode};
use sismo::sched::kdebug::{
    thread_map_entries, typefilter_bitmap, KdebugRing, OpenStep, StartError,
};
use sismo::sched::kperf::{arm_lazy_wait, disarm, knob_name, Knob, KnobValue};
use sismo::sched::kperf_offcpu::{
    LazyDecoder, OffCpuEmitter, OffCpuSample, DBG_PERF, PERF_CALLSTACK, PERF_CS_KDATA,
    PERF_CS_KHDR, PERF_CS_UDATA, PERF_CS_UHDR, PERF_LAZY, PERF_LZ_WAITSAMPLE, PERF_THREADINFO,
    PERF_TIMER, PERF_TI_DATA, PERF_TM_FIRE,
};
use sismo::sched::kperf_sample::{OffCpuConsumer, OnCpuConsumer};
use sismo::sched::macos_sched_capture::{
    buffer_events, encode_task_state, extract_code, is_near_full, outgoing_task_state, PtCache,
    SchedCapture, SwitchPairer, TreeDelta, MACH_DISPATCH, SCHED_CSC, TS_INTERRUPTIBLE_SLEEP,
    TS_RUNNABLE, TS_RUNNING, TS_STOPPED, TS_UNINTERRUPTIBLE_SLEEP,
};
use sismo::sched::perf_emitter::{
    find_module, load_modules, module_at, DecodedStack, Module, PerfEmitter,
};
use sismo::sched::proc_info::{parent_pid, pid_path, thread_name};
use sismo::sched::ring::{
    decode_events, decode_thread_map, ConsumerCtl, KdEvent, KdThreadMap, RingConsumer,
};
use sismo::sched::ring_host::{RingHost, SchedConsumer, Source};
use sismo::worker_sdk::{Rest, WorkerAction};

fn timebase() -> TimebaseInfo {
    TimebaseInfo { numer: 125, denom: 3 }
}

#[allow(clippy::too_many_arguments)]
fn mk(sub: u32, code: u32, ts: u64, a1: u64, a2: u64, a3: u64, a4: u64, a5: u64) -> KdEvent {
    KdEvent {
        debugid: (DBG_PERF << 24) | (sub << 16) | (code << 2),
        timestamp: ts,
        arg1: a1,
        arg2: a2,
        arg3: a3,
        arg4: a4,
        arg5: a5,
        cpuid: 0,
        unused: 0,
    }
}

#[test]
fn pairs_waitsample_with_stack() {
    let mut d = LazyDecoder::new(timebase());
    // WAITSAMPLE: wait_time=1000 ticks, wake ts=42; tid (arg5) = 7.
    assert!(d.on_event(&mk(PERF_LAZY, PERF_LZ_WAITSAMPLE, 42, 1000, 0, 0, 0, 7)).is_none());
    // THREADINFO: pid=1234, tid=7.
    assert!(d.on_event(&mk(PERF_THREADINFO, PERF_TI_DATA, 0, 1234, 7, 0, 0, 7)).is_none());
    // UHDR nframes=2, then one UDATA of 4 (2 used).
    assert!(d.on_event(&mk(PERF_CALLSTACK, PERF_CS_UHDR, 0, 0, 2, 0, 0, 7)).is_none());
    let s = d.on_event(&mk(PERF_CALLSTACK, PERF_CS_UDATA, 0, 0xaaaa, 0xbbbb, 0, 0, 7)).unwrap();
    assert_eq!((s.pid, s.tid, s.ts_ticks), (1234, 7, 42));
    assert_eq!(s.frames, vec![0xaaaa, 0xbbbb]);
    assert!(s.wait_ns > 0); // 1000 ticks -> some ns
    assert_eq!(s.wait_ns, 41_666);
}

#[test]
fn stack_without_wait_is_dropped() {
    let mut d = LazyDecoder::new(timebase());
    d.on_event(&mk(PERF_CALLSTACK, PERF_CS_UHDR, 0, 0, 1, 0, 0, 9));
    // No preceding WAITSAMPLE for tid 9 -> orphan, no sample.
    assert!(d.on_event(&mk(PERF_CALLSTACK, PERF_CS_UDATA, 0, 0xc0de, 0, 0, 0, 9)).is_none());
}

fn two_modules() -> Vec<Module> {
    vec![
        Module { base: 0x1000, end: 0x2000, path: b"a".to_vec(), uuid: [0; 16] },
        Module { base: 0x4000, end: 0x5000, path: b"b".to_vec(), uuid: [0; 16] },
    ]
}

#[test]
fn kperf_offcpu_find_module_ranges() {
    let mods = two_modules();
    assert_eq!(find_module(&mods, 0x1500), Some(0));
    assert_eq!(find_module(&mods, 0x4000), Some(1));
    assert_eq!(find_module(&mods, 0x2000), None); // end is exclusive
    assert_eq!(find_module(&mods, 0x0fff), None);
    assert_eq!(find_module(&mods, 0x9000), None);
}

#[test]
fn kperf_sample_find_module_ranges() {
    let mods = load_modules(two_modules().into_iter().rev().collect());
    assert_eq!(find_module(&mods, 0x1500), Some(0));
    assert_eq!(find_module(&mods, 0x4000), Some(1));
    assert_eq!(find_module(&mods, 0x2000), None); // end is exclusive
    assert_eq!(find_module(&mods, 0x0fff), None);
    assert_eq!(find_module(&mods, 0x9000), None);
}

fn offcpu() -> OffCpuConsumer {
    OffCpuConsumer::new(ConsumerCtl::new(), Vec::new(), TimebaseInfo { numer: 1, denom: 1 })
}

fn oncpu() -> OnCpuConsumer {
    OnCpuConsumer::new(
        ConsumerCtl::new(),
        Vec::new(),
        TimebaseInfo { numer: 1, denom: 1 },
        1_000_000,
    )
}

#[test]
fn offcpu_pairs_waitsample_with_stack() {
    let mut d = offcpu();
    // WAITSAMPLE: wait_time=1000 ticks, wake ts=42; tid (arg5) = 7.
    assert!(d.decode(&mk(PERF_LAZY, PERF_LZ_WAITSAMPLE, 42, 1000, 0, 0, 0, 7)).is_none());
    assert!(d.decode(&mk(PERF_THREADINFO, PERF_TI_DATA, 0, 1234, 7, 0, 0, 7)).is_none());
    assert!(d.decode(&mk(PERF_CALLSTACK, PERF_CS_UHDR, 0, 0, 2, 0, 0, 7)).is_none());
    let (s, weight) =
        d.decode(&mk(PERF_CALLSTACK, PERF_CS_UDATA, 0, 0xaaaa, 0xbbbb, 0, 0, 7)).unwrap();
    assert_eq!((s.pid, s.tid, s.ts_ticks), (1234, 7, 42));
    assert_eq!(s.frames, vec![0xaaaa, 0xbbbb]);
    assert!(weight > 0); // 1000 ticks -> some ns
}

#[test]
fn offcpu_drops_stack_without_wait() {
    // A timer-triggered stack (no WAITSAMPLE) must NOT become an off-CPU
    // sample — that's how the two consumers demux off one stream.
    let mut d = offcpu();
    d.decode(&mk(PERF_THREADINFO, PERF_TI_DATA, 0, 1, 9, 0, 0, 9));
    d.decode(&mk(PERF_CALLSTACK, PERF_CS_UHDR, 0, 0, 1, 0, 0, 9));
    assert!(d.decode(&mk(PERF_CALLSTACK, PERF_CS_UDATA, 0, 0xc0de, 0, 0, 0, 9)).is_none());
}

#[test]
fn oncpu_pairs_timerfire_with_stack() {
    let mut d = oncpu();
    assert!(d.decode(&mk(PERF_TIMER, PERF_TM_FIRE, 99, 0, 0, 0, 0, 5)).is_none());
    assert!(d.decode(&mk(PERF_THREADINFO, PERF_TI_DATA, 0, 4321, 5, 0, 0, 5)).is_none());
    assert!(d.decode(&mk(PERF_CALLSTACK, PERF_CS_UHDR, 0, 0, 1, 0, 0, 5)).is_none());
    let s = d.decode(&mk(PERF_CALLSTACK, PERF_CS_UDATA, 0, 0xf00d, 0, 0, 0, 5)).unwrap();
    assert_eq!((s.pid, s.tid, s.ts_ticks), (4321, 5, 99));
    assert_eq!(s.frames, vec![0xf00d]);
}

#[test]
fn oncpu_captures_kernel_and_user_stack() {
    let mut d = oncpu();
    assert!(d.decode(&mk(PERF_TIMER, PERF_TM_FIRE, 7, 0, 0, 0, 0, 3)).is_none());
    assert!(d.decode(&mk(PERF_THREADINFO, PERF_TI_DATA, 0, 111, 3, 0, 0, 3)).is_none());
    // Kernel stack (1 frame) arrives first and is parked.
    assert!(d.decode(&mk(PERF_CALLSTACK, PERF_CS_KHDR, 0, 0, 1, 0, 0, 3)).is_none());
    assert!(d.decode(&mk(PERF_CALLSTACK, PERF_CS_KDATA, 0, 0xffff_0000, 0, 0, 0, 3)).is_none());
    // The user stack (2 frames) closes the sample and pulls in the kernel stack.
    assert!(d.decode(&mk(PERF_CALLSTACK, PERF_CS_UHDR, 0, 0, 2, 0, 0, 3)).is_none());
    let s = d.decode(&mk(PERF_CALLSTACK, PERF_CS_UDATA, 0, 0xaaaa, 0xbbbb, 0, 0, 3)).unwrap();
    assert_eq!(s.frames, vec![0xaaaa, 0xbbbb]); // user, leaf-first
    assert_eq!(s.kernel_frames, vec![0xffff_0000]); // kernel, leaf-first
    assert_eq!((s.pid, s.tid), (111, 3));
}

#[test]
fn oncpu_drops_stack_without_timerfire() {
    let mut d = oncpu();
    d.decode(&mk(PERF_THREADINFO, PERF_TI_DATA, 0, 1, 9, 0, 0, 9));
    d.decode(&mk(PERF_CALLSTACK, PERF_CS_UHDR, 0, 0, 1, 0, 0, 9));
    assert!(d.decode(&mk(PERF_CALLSTACK, PERF_CS_UDATA, 0, 0xc0de, 0, 0, 0, 9)).is_none());
}

#[test]
fn one_stream_feeds_both_consumers() {
    let stream = [
        mk(PERF_TIMER, PERF_TM_FIRE, 7, 0, 0, 0, 0, 3),
        mk(PERF_LAZY, PERF_LZ_WAITSAMPLE, 8, 10, 0, 0, 0, 4),
        mk(PERF_THREADINFO, PERF_TI_DATA, 0, 111, 3, 0, 0, 3),
        mk(PERF_CALLSTACK, PERF_CS_UHDR, 0, 0, 1, 0, 0, 3),
        mk(PERF_CALLSTACK, PERF_CS_UDATA, 0, 0xaa, 0, 0, 0, 3),
        mk(PERF_CALLSTACK, PERF_CS_UHDR, 0, 0, 1, 0, 0, 4),
        mk(PERF_CALLSTACK, PERF_CS_UDATA, 0, 0xbb, 0, 0, 0, 4),
    ];
    let on = oncpu().on_drain(&stream);
    assert_eq!(on.len(), 1);
    assert_eq!((on[0].tid, on[0].frames.clone()), (3, vec![0xaa]));
    let off = offcpu().on_drain(&stream);
    assert_eq!(off.len(), 1);
    assert_eq!((off[0].0.tid, off[0].0.frames.clone()), (4, vec![0xbb]));
    assert_eq!(oncpu().csc_ranges(), vec![(0x2500, 0x25ff)]);
}

#[test]
fn emitter_starts_a_sequence_with_its_defaults() {
    let mut e = PerfEmitter::new(b"tb", two_modules(), TimebaseInfo { numer: 1, denom: 1 });
    e.mark_needs_defaults();
    let s = DecodedStack {
        pid: 5,
        tid: 6,
        cpu: 1,
        ts_ticks: 77,
        frames: vec![0x1010, 0x9999],
        kernel_frames: vec![],
    };
    assert!(e.has_room(&s));
    let packets = e.emit(&s, 123);
    assert_eq!(packets.len(), 2);
    assert!(packets[0].windows(2).any(|w| w == b"tb"));
    let fields = all_fields(&packets[1]);
    assert!(matches!(fields[0], (8, WireValue::Varint(77))));
    let sample = fields
        .iter()
        .find_map(|(f, v)| match (f, v) {
            (66, WireValue::Len(b)) => Some(*b),
            _ => None,
        })
        .expect("a sample");
    assert!(all_fields(sample).iter().any(|(f, v)| *f == 6 && matches!(v, WireValue::Varint(123))));
    // The second sample of the sequence needs no defaults, and no new tables.
    let more = e.emit(&s, 5);
    assert_eq!(more.len(), 1);
    assert!(more[0].len() < packets[1].len());
    // A stack outside the modules asks for them to be read again, now and then.
    assert!(!e.wants_reload(&vec![0x1010]));
}

#[test]
fn offcpu_emitter_weighs_with_the_wait() {
    let mut e = OffCpuEmitter::new(two_modules(), TimebaseInfo { numer: 1, denom: 1 });
    e.mark_needs_defaults();
    let s = OffCpuSample {
        pid: 1,
        tid: 2,
        cpu: 0,
        ts_ticks: 9,
        wait_ns: 4242,
        frames: vec![0x1010],
    };
    let packets = e.emit(s);
    assert_eq!(packets.len(), 2);
    assert!(packets[0].windows(8).any(|w| w == b"off-cpu-"));
}

#[test]
fn modules_span_their_text() {
    let m = module_at(0x1000, 0x234, b"x".to_vec(), [1; 16]);
    assert_eq!((m.base, m.end), (0x1000, 0x1234));
}

#[test]
fn extract_code_matches_masks() {
    // code field = bits [2..16). e.g. debugid 0x01400080 -> (0x80 & 0xfffc)>>2 = 0x20.
    assert_eq!(extract_code(0x0140_0080), 0x20);
    assert_eq!(extract_code(0x0140_0000), 0x00);
    assert_eq!(extract_code(0x0140_0008), 0x02);
}

#[test]
fn macos_sched_capture_outgoing_state_mapping() {
    assert_eq!(outgoing_task_state(0), TS_RUNNABLE);
    assert_eq!(outgoing_task_state(0x01), TS_INTERRUPTIBLE_SLEEP);
    assert_eq!(outgoing_task_state(0x09), TS_UNINTERRUPTIBLE_SLEEP); // TH_WAIT|TH_UNINT
    assert_eq!(outgoing_task_state(0x02), TS_STOPPED);
}

#[test]
fn macos_sched_capture_struct_sizes() {
    assert_eq!(std::mem::size_of::<KdEvent>(), 64);
    assert_eq!(std::mem::size_of::<KdThreadMap>(), 32);
}

#[test]
fn ring_host_outgoing_state_mapping() {
    assert_eq!(outgoing_task_state(0), TS_RUNNABLE);
    assert_eq!(outgoing_task_state(0x01), TS_INTERRUPTIBLE_SLEEP);
    assert_eq!(outgoing_task_state(0x09), TS_UNINTERRUPTIBLE_SLEEP); // TH_WAIT|TH_UNINT
    assert_eq!(outgoing_task_state(0x02), TS_STOPPED);
}

fn with_id(debugid: u32) -> KdEvent {
    let mut e = KdEvent::zero();
    e.debugid = debugid;
    e
}

#[test]
fn event_code_matches_masks() {
    // code field = bits [2..16). debugid 0x01400080 -> (0x80 & 0xfffc)>>2 = 0x20.
    assert_eq!(with_id(0x0140_0080).code(), 0x20);
    assert_eq!(with_id(0x0140_0008).code(), 0x02);
    assert_eq!((with_id(0x2503_0004).class(), with_id(0x2503_0004).subclass()), (0x25, 3));
}

#[test]
fn ring_host_struct_sizes() {
    assert_eq!(std::mem::size_of::<KdEvent>(), 64);
    assert_eq!(std::mem::size_of::<KdThreadMap>(), 32);
}

#[test]
fn perf_events_excluded_from_sched_by_csc() {
    // PERF_TM_FIRE (on-CPU trigger): class=DBG_PERF(0x25), subclass=PERF_TIMER
    // (3), code=0 — its 14-bit code collides with MACH_SCHED (0), so the
    // class+subclass (csc) guard, not the code, is what keeps it out of the
    // sched pairing.
    let tm_fire = with_id((0x25 << 24) | (3 << 16));
    assert_eq!(tm_fire.code(), 0x00, "collides with MACH_SCHED code");
    assert_ne!(((tm_fire.debugid >> 16) & 0xffff) as u16, SCHED_CSC);
    // A real MACH_SCHED event: class=DBG_MACH(1), subclass=DBG_MACH_SCHED(0x40).
    let sched = with_id((1 << 24) | (0x40 << 16));
    assert_eq!(((sched.debugid >> 16) & 0xffff) as u16, SCHED_CSC);
    assert_eq!(sched.csc(), SCHED_CSC);
}

/// A switch on `cpu` from `from` to `to` at `ts`, in its two halves.
fn switch(cpu: u32, from: u64, to: u64, ts: u64, bits: u64) -> [KdEvent; 2] {
    let mut a = with_id(0x0140_0000);
    a.cpuid = cpu;
    a.timestamp = ts;
    a.arg5 = from;
    a.arg2 = to;
    a.arg3 = 31;
    a.arg4 = 47;
    let mut b = with_id(0x0140_0000 | (MACH_DISPATCH << 2));
    b.cpuid = cpu;
    b.arg1 = from;
    b.arg3 = bits;
    [a, b]
}

#[test]
fn two_halves_make_two_packets() {
    let mut p = SwitchPairer::new(TimebaseInfo { numer: 1, denom: 1 }, true);
    let mut cache = PtCache::new();
    let mut t = KdThreadMap::zero();
    t.thread = 10;
    t.pid = 3;
    t.command[..2].copy_from_slice(b"ab");
    let mut delta = TreeDelta::new();
    cache.learn(&mut delta, &t, None, Some(1), None);
    let events = switch(0, 10, 20, 500, 1);
    let packets = p.emit_batch(&events, &[], &cache);
    assert_eq!(packets.len(), 2);
    assert_eq!(packets[0], encode_task_state(500, 0, b"ab", 10, TS_INTERRUPTIBLE_SLEEP, 31));
    assert_eq!(packets[1], encode_task_state(500, 0, b"?", 20, TS_RUNNING, 47));
    // A first half waits for its second, and CPUs do not mix.
    assert!(p.emit_batch(&events[..1], &[], &cache).is_empty());
    assert!(p.emit_batch(&switch(1, 10, 20, 1, 1)[1..], &[], &cache).is_empty());
    assert_eq!(p.emit_batch(&events[1..], &[], &cache).len(), 2);
}

#[test]
fn threads_and_processes_are_named_once() {
    let mut cache = PtCache::new();
    let mut t = KdThreadMap::zero();
    t.thread = 10;
    t.pid = 3;
    t.command[..2].copy_from_slice(b"ab");
    assert!(cache.needs_thread(&t));
    assert!(cache.needs_process(3));
    let mut delta = TreeDelta::new();
    assert!(delta.tree_packet().is_none());
    cache.learn(&mut delta, &t, Some(b"worker".to_vec()), Some(1), Some(b"/bin/ab".to_vec()));
    assert_eq!((delta.threads.len(), delta.processes.len()), (1, 1));
    assert_eq!(delta.threads[0].comm, b"worker");
    assert_eq!(delta.processes[0].cmdline, b"/bin/ab");
    assert!(delta.tree_packet().is_some());
    assert!(!cache.needs_thread(&t));
    let mut again = TreeDelta::new();
    cache.learn(&mut again, &t, Some(b"worker".to_vec()), Some(1), Some(b"/bin/ab".to_vec()));
    assert!(again.tree_packet().is_none());
    assert_eq!(cache.lookup_comm(&[], 10), b"worker");
    assert_eq!(cache.lookup_comm(&[t], 11), b"?");
}

#[test]
fn sched_capture_counts_its_drains() {
    let mut s = SchedCapture::new(TimebaseInfo { numer: 1, denom: 1 });
    let (packets, _) = s.drain_once(&switch(0, 1, 2, 5, 0), &[]);
    assert_eq!(packets.len(), 2);
    assert_eq!((s.stats.drain_calls, s.stats.events_emitted), (1, 2));
    assert!(is_near_full(262_144));
    assert!(!is_near_full(1));
    assert_eq!(buffer_events(0, 9), 9);
    assert_eq!(buffer_events(4, 9), 4);
}

#[test]
fn events_are_decoded_from_the_kernel_buffer() {
    let mut b = vec![0u8; 64];
    b[0..8].copy_from_slice(&77u64.to_le_bytes());
    b[40..48].copy_from_slice(&5u64.to_le_bytes());
    b[48..52].copy_from_slice(&0x0140_0080u32.to_le_bytes());
    b[52..56].copy_from_slice(&3u32.to_le_bytes());
    let e = decode_events(&b, 1);
    assert_eq!(e.len(), 1);
    assert_eq!((e[0].timestamp, e[0].arg5, e[0].cpuid, e[0].code()), (77, 5, 3, 0x20));
    let mut t = vec![0u8; 32];
    t[0..8].copy_from_slice(&9u64.to_le_bytes());
    t[8..12].copy_from_slice(&(-1i32).to_le_bytes());
    t[12..15].copy_from_slice(b"cmd");
    let m = decode_thread_map(&t, 1);
    assert_eq!((m[0].thread, m[0].pid), (9, -1));
    assert_eq!(m[0].command_bytes(), b"cmd");
    assert_eq!(thread_map_entries(100), 3);
}

#[test]
fn typefilter_keeps_its_ranges() {
    let b = typefilter_bitmap(&[(0x0140, 0x0140), (0x2500, 0x25ff)]);
    assert_eq!(b.len(), 8192);
    let kept = |csc: usize| b[csc / 8] & (1 << (csc % 8)) != 0;
    assert!(kept(0x0140) && kept(0x2500) && kept(0x25ff));
    assert!(!kept(0x0141) && !kept(0x24ff) && !kept(0x2600));
}

#[test]
fn kernel_ring_opens_when_all_goes_well() {
    let mut r = KdebugRing::open();
    for _ in 0..5 {
        r.advance(true);
    }
    assert_eq!(r.step, OpenStep::Opened);
    let mut f = KdebugRing::open();
    f.advance(false); // what was there need not be
    f.advance(true);
    f.advance(true);
    f.advance(false);
    assert_eq!(f.step, OpenStep::Undo(StartError::SetReg));
    f.advance(true);
    assert_eq!(f.step, OpenStep::Failed(StartError::SetReg));
}

#[test]
fn lazy_wait_is_armed_before_sampling_starts() {
    let s = arm_lazy_wait(42, 3_000, timebase());
    assert_eq!(s.last(), Some(&(Knob::Sampling, KnobValue::Word(1))));
    assert!(s.contains(&(Knob::LazyWaitTimeThreshold, KnobValue::Long(72))));
    assert_eq!(
        disarm(),
        vec![(Knob::Sampling, KnobValue::Word(0)), (Knob::Reset, KnobValue::Word(1))]
    );
    assert_eq!(knob_name(Knob::Sampling), "kperf.sampling");
}

#[test]
fn ticks_and_nanoseconds_convert() {
    assert_eq!(ticks_to_ns(3, timebase()), 125);
    assert_eq!(ns_to_ticks(125, timebase()), 3);
    assert_eq!(stamp_ns(3, timebase()), 125);
}

fn named_thread(name: &[u8]) -> Vec<u8> {
    let mut b = vec![0u8; 112];
    b[48..48 + name.len()].copy_from_slice(name);
    b
}

#[test]
fn kernel_buffers_hold_names() {
    let mut b = vec![0u8; 136];
    b[16..20].copy_from_slice(&77u32.to_le_bytes());
    assert_eq!(parent_pid(136, &b), Some(77));
    assert_eq!(parent_pid(0, &b), None);
    assert_eq!(thread_name(112, &named_thread(b"main")), Some(b"main".to_vec()));
    assert_eq!(thread_name(112, &named_thread(b"")), None);
    assert_eq!(thread_name(-1, &named_thread(b"main")), None);
    assert_eq!(pid_path(4, b"/bin\0junk"), Some(b"/bin".to_vec()));
    assert_eq!(pid_path(0, b"/bin"), None);
}

#[test]
fn thread_name_respects_cap() {
    // Even if unnamed (n=0), must never exceed cap. Exercise a tiny cap.
    let mut buf = [0xFFu8; 8];
    let n = sismo_proc_thread_name(112, &named_thread(b"worker"), &mut buf[..4]);
    assert!(n <= 4);
    assert_eq!(n, 4);
    assert_eq!(&buf, b"work\xff\xff\xff\xff"); // untouched beyond the cap
    assert_eq!(sismo_proc_thread_name(0, &named_thread(b"worker"), &mut buf), 0);
}

#[test]
fn proc_info_bogus_pid_fails_cleanly() {
    // What the kernel answers for a pid that never exists.
    let mut ppid = 0u32;
    assert!(!sismo_proc_parent_pid(0, &[0; 136], &mut ppid));
    assert_eq!(ppid, 0);
    let mut buf = [0u8; 64];
    assert_eq!(sismo_proc_thread_name(0, &[0; 112], &mut buf), 0);
    assert_eq!(sismo_proc_pid_path(0, buf.len()), 0);
    assert!(parent_pid(0, &[0; 136]).is_none());
    assert!(thread_name(0, &[0; 112]).is_none());
    assert!(pid_path(0, &[0; 1024]).is_none());
}

#[test]
fn process_numbers_are_stored() {
    let mut b = vec![0u8; 136];
    b[16] = 9;
    let mut ppid = 0u32;
    assert!(sismo_proc_parent_pid(136, &b, &mut ppid));
    assert_eq!(ppid, 9);
    assert_eq!(sismo_proc_pid_path(10, 4), 4);
    assert_eq!(sismo_proc_pid_path(3, 4), 3);
}

/// A data source config that carries `inner`.
fn config(inner: &[u8]) -> Vec<u8> {
    let mut dsc = vec![0x82, 0x7D, inner.len() as u8];
    dsc.extend_from_slice(inner);
    dsc
}

#[test]
fn host_plans_what_its_sources_ask_for() {
    let mut h = RingHost::new();
    assert!(h.register(Source::Sched, 1));
    assert!(h.register(Source::OnCpu, 2));
    assert!(!h.register(Source::OffCpu, u32::MAX));
    assert_eq!(h.wait_for_setups(), None);
    h.sched_on_setup(&config(&sched_encode(4096, 77, 0)));
    h.cpu_on_setup(&config(&cpu_encode(0, 250)));
    assert_eq!(h.wait_for_setups(), Some(true));
    let p = h.plan();
    assert_eq!((p.kernel_buffer_events, p.target_pid), (4096, 77));
    assert_eq!((p.threshold_ns, p.period_ns), (500_000, 250_000));
    assert_eq!((p.want_offcpu, p.want_oncpu), (false, true));
    assert_eq!(p.csc_ranges, vec![(0x0140, 0x0140), (0x2500, 0x25ff)]);
}

#[test]
fn host_drains_before_it_answers_stops() {
    let mut h = RingHost::new();
    h.register(Source::Sched, 1);
    h.register(Source::OffCpu, 2);
    h.offcpu_on_setup();
    h.on_start(Source::Sched);
    assert!(h.any_running() && h.feeds(Source::Sched) && !h.feeds(Source::OffCpu));
    assert_eq!(h.rest(9), Rest::Poll(9));
    h.on_stop(Source::Sched, 5);
    h.on_stop(Source::OffCpu, 6);
    assert_eq!(
        h.turn().unwrap(),
        vec![
            WorkerAction::Drain,
            WorkerAction::Drain,
            WorkerAction::StopDone(5),
            WorkerAction::StopDone(6),
        ]
    );
    assert!(!h.any_running());
    assert_eq!(h.drained(0), (0, true));
    assert_eq!(h.drained(0), (1, false));
    h.counted(Source::OffCpu, 3);
    assert_eq!(h.stats().offcpu_samples, 3);
    assert_eq!(h.stats().drain_calls, 2);
    h.request_exit();
    assert!(h.turn().is_none());
    assert_eq!(h.rest(9), Rest::Exit);
}

#[test]
fn sched_consumer_passes_over_samples() {
    let mut c = SchedConsumer::new(ConsumerCtl::new(), TimebaseInfo { numer: 1, denom: 1 });
    let mut events = vec![mk(PERF_TIMER, PERF_TM_FIRE, 99, 0, 6, 0, 0, 5)];
    events.extend_from_slice(&switch(0, 1, 2, 5, 0));
    assert_eq!(c.on_drain(&events).len(), 2);
    assert_eq!(c.csc_ranges(), vec![(SCHED_CSC, SCHED_CSC)]);
}
