//! The Linux CPU collector: turns the records of the BPF programs into thread
//! scoped perf samples. Two sample sequences come out of it, one of CPU samples
//! and one of off-CPU samples, each with its own timebase and interning tables.

use crate::assoc;
use crate::bytes;
use crate::bytes::{bytes_before, read_le_u64};
use crate::cpu::bpf_records;
use crate::cpu::bpf_records::{
    Record, SismoKsymRec, SismoModuleRec, SismoPyframeRec, SismoSampleRec, SismoUnwindRec,
    SISMO_MAX_KERNEL_STACK, SISMO_MAX_PY_FRAMES, SISMO_MODULE_PREFIX, SISMO_STACK_SNAP_MAX,
};
use crate::cpu::callstack;
use crate::cpu::callstack::{intern_callstack, Lookup};
use crate::cpu::counters;
use crate::cpu::counters::{Counter, CounterView, FocusPreset, SISMO_MAX_COUNTERS};
use crate::cpu::interner;
use crate::cpu::interner::{InternState, Interned, Interner};
use crate::cpu::told;
use crate::data_regions;
use crate::data_regions::DataRegions;
use crate::intern;
use crate::proto::packets;
use crate::proto::packets::{write_perf_defaults_packet, write_perf_sample};
use crate::proto::wire;
use crate::proto::wire::FieldValue;
use crate::proto::writer::ProtoWriter;
use std::collections::HashMap;
use vstd::prelude::*;
use vstd::slice::{slice_subrange, slice_to_vec};
use vstd::string::*;
use vstd::utf8::*;

verus! {

pub const TP_FIELD_PERF_SAMPLE: u32 = 66;

pub const SEQ_INCREMENTAL_STATE_CLEARED: u32 = 1;

pub const SEQ_NEEDS_INCREMENTAL_STATE: u32 = 2;

pub const BUILTIN_CLOCK_MONOTONIC: u32 = 3;

pub const SAMPLE_SCOPE_THREAD: u32 = 2;

/// The top of x86-64 user space.
pub const USER_ADDR_MAX: u64 = 0x0000_7fff_ffff_ffff;

/// Marks the block identity of an off-CPU sample as a file id.
pub const BLOCK_ID_FILE: u64 = 0x4000_0000_0000_0000;

/// What a recording counted.
#[derive(Clone, Copy, PartialEq, Eq, Structural, Debug)]
pub struct LinuxBpfStats {
    pub samples: u64,
    pub threads: u64,
    pub busiest_cycles: u64,
    pub data_frames: u64,
    pub offcpu_samples: u64,
    pub offcpu_ns: u64,
}

/// The collector as plain values.
#[verifier::ext_equal]
pub struct CaptureView {
    pub interner: InternState,
    pub need_defaults: bool,
    pub offcpu_interner: InternState,
    pub offcpu_need_defaults: bool,
    pub ksym_names: Map<u32, Seq<u8>>,
    pub file_names: Map<u32, Seq<u8>>,
    pub py_names: Map<u32, Seq<u8>>,
    pub build_ids: Map<u64, Seq<u8>>,
    /// The latest cycle count of each thread.
    pub acc: Map<u32, u64>,
    pub samples: u64,
    pub data_frames: u64,
    pub offcpu_samples: u64,
    pub offcpu_ns: u64,
    pub unwind_snapshots: u64,
    pub counters: Seq<CounterView>,
    pub active_slots: Seq<u8>,
    pub focus: Option<FocusPreset>,
    pub python_bpf: bool,
    pub active: bool,
}

pub struct Capture {
    pub interner: Interner,
    pub need_defaults: bool,
    pub offcpu_interner: Interner,
    pub offcpu_need_defaults: bool,
    pub ksym_names: HashMap<u32, Vec<u8>>,
    pub file_names: HashMap<u32, Vec<u8>>,
    pub py_names: HashMap<u32, Vec<u8>>,
    pub build_ids: HashMap<u64, Vec<u8>>,
    pub acc: Vec<(u32, u64)>,
    pub samples: u64,
    pub data_frames: u64,
    pub offcpu_samples: u64,
    pub offcpu_ns: u64,
    pub unwind_snapshots: u64,
    pub counters: Vec<Counter>,
    pub active_slots: Vec<u8>,
    pub focus: Option<FocusPreset>,
    pub python_bpf: bool,
    pub active: bool,
}

impl View for Capture {
    type V = CaptureView;

    open spec fn view(&self) -> CaptureView {
        CaptureView {
            interner: self.interner@,
            need_defaults: self.need_defaults,
            offcpu_interner: self.offcpu_interner@,
            offcpu_need_defaults: self.offcpu_need_defaults,
            ksym_names: callstack::names(self.ksym_names@),
            file_names: callstack::names(self.file_names@),
            py_names: callstack::names(self.py_names@),
            build_ids: self.build_ids@.map_values(|v: Vec<u8>| v@),
            acc: assoc::as_map(self.acc@),
            samples: self.samples,
            data_frames: self.data_frames,
            offcpu_samples: self.offcpu_samples,
            offcpu_ns: self.offcpu_ns,
            unwind_snapshots: self.unwind_snapshots,
            counters: counters::views(self.counters@),
            active_slots: self.active_slots@,
            focus: self.focus,
            python_bpf: self.python_bpf,
            active: self.active,
        }
    }
}

/// What is left to do for a record.
pub enum Pending {
    Nothing,
    /// Find the module's build id.
    Module(SismoModuleRec),
    /// Resolve the stack, then `handle_offcpu`.
    OffCpu(SismoSampleRec),
    /// Unwind the stack and resolve it, then `process_sample`.
    Unwind(SismoUnwindRec),
    /// Resolve the stack, then `process_sample`.
    Sample(SismoSampleRec),
}

/// What was found out about a sampled stack: whether the target's mappings are
/// known, the Python frames, and the user addresses with what is known of each.
pub struct Resolved {
    pub maps_known: bool,
    pub py_frames: Vec<Vec<u8>>,
    pub pcs: Vec<u64>,
    pub lookups: Vec<Lookup>,
}

impl Resolved {
    pub open spec fn wf(self) -> bool {
        self.pcs@.len() == self.lookups@.len()
    }

    /// The most ids that interning the stack can take from a table.
    pub open spec fn cost(self) -> nat {
        callstack::callstack_cost(
            self.py_frames@.len(),
            self.pcs@.len(),
            SISMO_MAX_KERNEL_STACK as nat,
        )
    }
}

/// The bytes of a counter's name.
pub open spec fn name_bytes(c: CounterView) -> Seq<u8> {
    encode_utf8(c.name)
}

/// The names of the counters that follow the timebase.
pub open spec fn follower_names(counters: Seq<CounterView>, slots: Seq<u8>) -> Seq<Seq<u8>> {
    Seq::new(
        if slots.len() == 0 {
            0
        } else {
            (slots.len() - 1) as nat
        },
        |i: int| name_bytes(counters[slots[i + 1] as int]),
    )
}

/// The name of the timebase: the first active counter.
pub open spec fn timebase_name(counters: Seq<CounterView>, slots: Seq<u8>) -> Seq<u8> {
    if slots.len() == 0 {
        "cpu-clock".spec_bytes()
    } else {
        name_bytes(counters[slots[0] as int])
    }
}

/// The packet that starts a CPU sample sequence.
#[verifier::opaque]
pub open spec fn cpu_defaults(counters: Seq<CounterView>, slots: Seq<u8>) -> Seq<u8> {
    packets::perf_defaults_packet(
        timebase_name(counters, slots),
        0,
        follower_names(counters, slots),
        SAMPLE_SCOPE_THREAD,
        BUILTIN_CLOCK_MONOTONIC,
        SEQ_INCREMENTAL_STATE_CLEARED,
    )
}

/// The packet that starts an off-CPU sample sequence.
#[verifier::opaque]
pub open spec fn offcpu_defaults() -> Seq<u8> {
    packets::perf_defaults_packet(
        "off-cpu-ns".spec_bytes(),
        0,
        Seq::empty(),
        SAMPLE_SCOPE_THREAD,
        BUILTIN_CLOCK_MONOTONIC,
        SEQ_INCREMENTAL_STATE_CLEARED,
    )
}

/// `TracePacket { timestamp = 8, sequence_flags = 13, interned_data = 12 (omitted
/// when empty), perf_sample = 66 }`.
pub open spec fn sample_packet(ts: u64, interned: Seq<u8>, sample: Seq<u8>) -> Seq<u8> {
    wire::varint_field(8, ts) + wire::varint_field(13, SEQ_NEEDS_INCREMENTAL_STATE as u64)
        + wire::nonempty_field(12, interned) + wire::sub_message(TP_FIELD_PERF_SAMPLE, sample)
}

/// The counts of the counters that follow the timebase.
pub open spec fn follower_counts(counts: Seq<u64>, slots: Seq<u8>) -> Seq<u64> {
    Seq::new(
        if slots.len() == 0 {
            0
        } else {
            (slots.len() - 1) as nat
        },
        |i: int| counts[slots[i + 1] as int],
    )
}

pub open spec fn timebase_count(counts: Seq<u64>, slots: Seq<u8>) -> u64 {
    if slots.len() == 0 {
        0
    } else {
        counts[slots[0] as int]
    }
}

/// Whether a sample's data address is recorded, with the region it is in.
pub open spec fn wants_data(focus: Option<FocusPreset>, data_addr: u64) -> bool {
    focus == Some(FocusPreset::Cache) && data_addr != 0
}

/// Interning a sample's callstack.
#[verifier::opaque]
pub open spec fn sample_stack(
    st: InternState,
    ksyms: Map<u32, Seq<u8>>,
    rec: SismoSampleRec,
    found: Resolved,
) -> Interned {
    callstack::callstack(
        st,
        found.maps_known,
        intern::rows(found.py_frames@),
        found.pcs@,
        found.lookups@,
        ksyms,
        rec.kernel_frames(),
    )
}

/// The packet of a CPU sample.
#[verifier::opaque]
pub open spec fn cpu_packet(
    c: CaptureView,
    rec: SismoSampleRec,
    found: Resolved,
    label: Seq<u8>,
) -> Seq<u8> {
    let s = sample_stack(c.interner, c.ksym_names, rec, found);
    let data = wants_data(c.focus, rec.data_addr);
    sample_packet(
        rec.hdr.ts,
        s.out,
        packets::perf_sample_body(
            rec.hdr.cpu,
            rec.hdr.pid,
            rec.hdr.tid,
            s.iid,
            timebase_count(rec.counters@, c.active_slots),
            follower_counts(rec.counters@, c.active_slots),
            if data {
                rec.data_addr
            } else {
                0
            },
            if data {
                Some(label)
            } else {
                None
            },
        ),
    )
}

/// The collector after a CPU sample was emitted.
pub open spec fn after_cpu_sample(c: CaptureView, rec: SismoSampleRec, found: Resolved) -> CaptureView {
    CaptureView {
        interner: sample_stack(c.interner, c.ksym_names, rec, found).state,
        data_frames: if wants_data(c.focus, rec.data_addr) {
            (c.data_frames + 1) as u64
        } else {
            c.data_frames
        },
        ..c
    }
}

/// The name of the file that an off-CPU block waits on, where it is one that is
/// known.
pub open spec fn block_file(files: Map<u32, Seq<u8>>, block_id: u64) -> Option<Seq<u8>> {
    let id = (block_id % 0x4000_0000) as u32;
    if block_id / BLOCK_ID_FILE % 2 == 1 && files.dom().contains(id) {
        Some(files[id])
    } else {
        None
    }
}

/// The packet of an off-CPU sample: the blocking stack, weighted by how long the
/// thread was off the CPU, with what it waited on.
#[verifier::opaque]
pub open spec fn offcpu_packet(c: CaptureView, rec: SismoSampleRec, found: Resolved) -> Seq<u8> {
    let s = sample_stack(c.offcpu_interner, c.ksym_names, rec, found);
    sample_packet(
        rec.hdr.ts,
        s.out,
        packets::perf_sample_body(
            rec.hdr.cpu,
            rec.hdr.pid,
            rec.hdr.tid,
            s.iid,
            rec.data_addr,
            Seq::empty(),
            rec.counters@[0],
            block_file(c.file_names, rec.counters@[0]),
        ),
    )
}

/// The collector after an off-CPU sample was emitted.
pub open spec fn after_offcpu_sample(c: CaptureView, rec: SismoSampleRec, found: Resolved) -> CaptureView {
    CaptureView {
        offcpu_interner: sample_stack(c.offcpu_interner, c.ksym_names, rec, found).state,
        ..c
    }
}

/// A packet, after the defaults of its sequence where they are due.
pub open spec fn after_defaults(due: bool, defaults: Seq<u8>, packet: Seq<u8>) -> Seq<Seq<u8>> {
    if due {
        seq![defaults, packet]
    } else {
        seq![packet]
    }
}

/// The collector once the CPU sequence has begun: from empty tables where its
/// defaults are due.
pub open spec fn begun_cpu(c: CaptureView) -> CaptureView {
    if c.need_defaults {
        CaptureView { interner: InternState::new(), need_defaults: false, ..c }
    } else {
        c
    }
}

/// The collector once the off-CPU sequence has begun.
pub open spec fn begun_offcpu(c: CaptureView) -> CaptureView {
    if c.offcpu_need_defaults {
        CaptureView { offcpu_interner: InternState::new(), offcpu_need_defaults: false, ..c }
    } else {
        c
    }
}

/// What every CPU sample is counted as.
pub open spec fn counted(c: CaptureView, rec: SismoSampleRec) -> CaptureView {
    CaptureView {
        samples: (c.samples + 1) as u64,
        acc: c.acc.insert(rec.hdr.tid, rec.counters@[0]),
        ..c
    }
}

/// What every off-CPU sample is counted as.
pub open spec fn counted_offcpu(c: CaptureView, rec: SismoSampleRec) -> CaptureView {
    CaptureView {
        offcpu_samples: (c.offcpu_samples + 1) as u64,
        offcpu_ns: if c.offcpu_ns + rec.data_addr > u64::MAX {
            u64::MAX
        } else {
            (c.offcpu_ns + rec.data_addr) as u64
        },
        ..c
    }
}

/// A name that ends at a NUL.
pub open spec fn nul_name(name: Seq<u8>) -> Seq<u8> {
    bytes::before(name, 0)
}

/// The bare name of a kernel symbol: without a "+0xoff/0xsize".
pub open spec fn ksym_name(name: Seq<u8>) -> Seq<u8> {
    bytes::before(nul_name(name), 0x2b)
}

/// A table with the first name of an id kept.
pub open spec fn first_kept(m: Map<u32, Seq<u8>>, id: u32, name: Seq<u8>) -> Map<u32, Seq<u8>> {
    if m.dom().contains(id) {
        m
    } else {
        m.insert(id, name)
    }
}

/// The packet that defines a module's mappings again, with the real build id.
pub open spec fn module_packet(st: InternState, base: u64, id: Seq<u8>) -> Seq<u8> {
    let b = interner::build_id_step(st, id);
    wire::varint_field(13, SEQ_NEEDS_INCREMENTAL_STATE as u64) + wire::len_field(
        12,
        b.out + interner::redefinitions(st.defs, base, b.iid, st.defs.len()),
    )
}

/// Keep the first name of an id.
fn keep_first(m: &mut HashMap<u32, Vec<u8>>, id: u32, name: Vec<u8>)
    ensures
        callstack::names(final(m)@) == first_kept(callstack::names(old(m)@), id, name@),
{
    let ghost before = m@;
    if !m.contains_key(&id) {
        let ghost n = name@;
        m.insert(id, name);
        assert(callstack::names(m@) =~= callstack::names(before).insert(id, n));
    } else {
        assert(callstack::names(m@).dom().contains(id));
    }
}

/// Where the first address is that no mapping holds, so that the mappings have to
/// be read again before it and those behind it are looked up. The address 0 is
/// not looked up.
pub open spec fn first_miss(pcs: Seq<u64>, found: Seq<bool>, i: nat) -> Option<nat>
    decreases pcs.len() - i,
{
    if i >= pcs.len() {
        None
    } else if pcs[i as int] != 0 && !found[i as int] {
        Some(i)
    } else {
        first_miss(pcs, found, i + 1)
    }
}

/// Where the first address is that no mapping holds.
pub fn find_first_miss(pcs: &[u64], found: &[bool]) -> (r: Option<usize>)
    requires
        pcs@.len() == found@.len(),
    ensures
        match r {
            Some(i) => first_miss(pcs@, found@, 0) == Some(i as nat),
            None => first_miss(pcs@, found@, 0) is None,
        },
{
    let mut i: usize = 0;
    while i < pcs.len()
        invariant
            i <= pcs@.len(),
            pcs@.len() == found@.len(),
            first_miss(pcs@, found@, i as nat) == first_miss(pcs@, found@, 0),
        decreases pcs@.len() - i,
    {
        if pcs[i] != 0 && !found[i] {
            return Some(i);
        }
        i += 1;
    }
    None
}

/// Whether the mappings, last read at `last_ns`, may be read again: at most once
/// a second.
pub fn reparse_due(now_ns: u64, last_ns: u64) -> (r: bool)
    ensures
        r == (vstd::wrapping::u64_specs::wrapping_sub(now_ns, last_ns) >= 1_000_000_000),
{
    now_ns.wrapping_sub(last_ns) >= 1_000_000_000
}

impl Capture {
    /// The tables hold no key twice, and the active slots are counters.
    pub open spec fn wf(self) -> bool {
        &&& self.interner@.wf()
        &&& self.offcpu_interner@.wf()
        &&& assoc::distinct_keys(self.acc@)
        &&& forall|i: int|
            0 <= i < self.active_slots@.len() ==> (#[trigger] self.active_slots@[i])
                < self.counters@.len() && self.active_slots@[i] < SISMO_MAX_COUNTERS
    }

    /// Whether the counts and tables have room for one more sample that takes
    /// `cost` ids.
    pub open spec fn room_for(self, cost: nat) -> bool {
        &&& self.samples < u64::MAX
        &&& self.data_frames < u64::MAX
        &&& self.offcpu_samples < u64::MAX
        &&& self.interner@.room() >= cost
        &&& self.offcpu_interner@.room() >= cost
        &&& cost <= u64::MAX
    }

    /// Whether there is room for one more sample with this stack.
    pub fn has_room(&self, found: &Resolved) -> (r: bool)
        ensures
            r ==> self.room_for(found.cost()),
            self.room_for(found.cost()) && found.py_frames@.len() < 0x1000_0000
                && found.pcs@.len() < 0x1000_0000 ==> r,
    {
        if found.py_frames.len() >= 0x1000_0000 || found.pcs.len() >= 0x1000_0000 {
            return false;
        }
        let cost: u64 = 2 + 2 * found.py_frames.len() as u64 + 3 * found.pcs.len() as u64 + 3 * 64;
        self.samples < u64::MAX && self.data_frames < u64::MAX && self.offcpu_samples < u64::MAX
            && self.interner.has_room(cost) && self.offcpu_interner.has_room(cost)
    }

    pub fn new(counters: Vec<Counter>, active_slots: Vec<u8>, focus: Option<FocusPreset>) -> (r:
        Capture)
        requires
            forall|i: int|
                0 <= i < active_slots@.len() ==> (#[trigger] active_slots@[i]) < counters@.len()
                    && active_slots@[i] < SISMO_MAX_COUNTERS,
        ensures
            r.wf(),
            r@ == (CaptureView {
                interner: InternState::new(),
                need_defaults: false,
                offcpu_interner: InternState::new(),
                offcpu_need_defaults: false,
                ksym_names: Map::empty(),
                file_names: Map::empty(),
                py_names: Map::empty(),
                build_ids: Map::empty(),
                acc: Map::empty(),
                samples: 0,
                data_frames: 0,
                offcpu_samples: 0,
                offcpu_ns: 0,
                unwind_snapshots: 0,
                counters: counters::views(counters@),
                active_slots: active_slots@,
                focus,
                python_bpf: false,
                active: false,
            }),
    {
        let r = Capture {
            interner: Interner::new(),
            need_defaults: false,
            offcpu_interner: Interner::new(),
            offcpu_need_defaults: false,
            ksym_names: HashMap::new(),
            file_names: HashMap::new(),
            py_names: HashMap::new(),
            build_ids: HashMap::new(),
            acc: Vec::new(),
            samples: 0,
            data_frames: 0,
            offcpu_samples: 0,
            offcpu_ns: 0,
            unwind_snapshots: 0,
            counters,
            active_slots,
            focus,
            python_bpf: false,
            active: false,
        };
        proof {
            assoc::lemma_empty(r.acc@);
            assert(callstack::names(r.ksym_names@) =~= Map::empty());
            assert(callstack::names(r.file_names@) =~= Map::empty());
            assert(callstack::names(r.py_names@) =~= Map::empty());
            assert(r@.build_ids =~= Map::empty());
        }
        r
    }

    /// A tracing session starts: both sequences begin afresh.
    pub fn on_start(&mut self)
        ensures
            final(self)@ == (CaptureView {
                need_defaults: true,
                offcpu_need_defaults: true,
                active: true,
                ..old(self)@
            }),
            old(self).wf() ==> final(self).wf(),
    {
        self.need_defaults = true;
        self.offcpu_need_defaults = true;
        self.active = true;
    }

    /// The tracing session is over.
    pub fn on_stopped(&mut self)
        ensures
            final(self)@ == (CaptureView { active: false, ..old(self)@ }),
            old(self).wf() ==> final(self).wf(),
    {
        self.active = false;
    }

    /// What the BPF programs were told of the target's interpreter: their walk counts
    /// from here on, where they took it.
    pub fn python_armed(&mut self, rc: i32)
        ensures
            final(self)@ == (CaptureView { python_bpf: rc == 0, ..old(self)@ }),
            old(self).wf() ==> final(self).wf(),
    {
        self.python_bpf = rc == 0;
    }

    /// Take in a record. Names are kept and unwind snapshots counted; what needs more
    /// from the target than the record holds comes back.
    pub fn handle(&mut self, rec: Record) -> (r: Pending)
        requires
            rec is SampleUnwind ==> old(self).unwind_snapshots < u64::MAX,
        ensures
            old(self).wf() ==> final(self).wf(),
            final(self)@ == (match rec {
                Record::Ksym(k) => CaptureView {
                    ksym_names: first_kept(old(self)@.ksym_names, k.id, ksym_name(k.name@)),
                    ..old(self)@
                },
                Record::File(k) => CaptureView {
                    file_names: first_kept(old(self)@.file_names, k.id, nul_name(k.name@)),
                    ..old(self)@
                },
                Record::PyFrame(k) => CaptureView {
                    py_names: first_kept(old(self)@.py_names, k.id, nul_name(k.name@)),
                    ..old(self)@
                },
                Record::SampleUnwind(_) => CaptureView {
                    unwind_snapshots: (old(self)@.unwind_snapshots + 1) as u64,
                    ..old(self)@
                },
                _ => old(self)@,
            }),
            r == (match rec {
                Record::Module(m) => Pending::Module(m),
                Record::OffCpu(s) => Pending::OffCpu(s),
                Record::SampleUnwind(u) => Pending::Unwind(u),
                Record::Sample(s) => Pending::Sample(s),
                _ => Pending::Nothing,
            }),
    {
        match rec {
            Record::Ksym(k) => {
                self.handle_ksym(&k);
                Pending::Nothing
            },
            Record::File(k) => {
                self.handle_file(&k);
                Pending::Nothing
            },
            Record::PyFrame(k) => {
                self.handle_pyframe(&k);
                Pending::Nothing
            },
            Record::Module(m) => Pending::Module(m),
            Record::OffCpu(s) => Pending::OffCpu(s),
            Record::SampleUnwind(u) => {
                self.unwind_snapshots = self.unwind_snapshots + 1;
                Pending::Unwind(u)
            },
            Record::Sample(s) => Pending::Sample(s),
            Record::Other => Pending::Nothing,
        }
    }

    /// The name of a kernel symbol; the first one of an id is kept.
    pub fn handle_ksym(&mut self, rec: &SismoKsymRec)
        ensures
            final(self)@ == (CaptureView {
                ksym_names: first_kept(old(self)@.ksym_names, rec.id, ksym_name(rec.name@)),
                ..old(self)@
            }),
            old(self).wf() ==> final(self).wf(),
    {
        let name = bytes_before(rec.name.as_slice(), 0);
        let bare = bytes_before(name.as_slice(), 0x2b);
        keep_first(&mut self.ksym_names, rec.id, bare);
    }

    /// The name of a file; the first one of an id is kept.
    pub fn handle_file(&mut self, rec: &SismoKsymRec)
        ensures
            final(self)@ == (CaptureView {
                file_names: first_kept(old(self)@.file_names, rec.id, nul_name(rec.name@)),
                ..old(self)@
            }),
            old(self).wf() ==> final(self).wf(),
    {
        let name = bytes_before(rec.name.as_slice(), 0);
        keep_first(&mut self.file_names, rec.id, name);
    }

    /// The name of a Python frame; the first one of an id is kept.
    pub fn handle_pyframe(&mut self, rec: &SismoPyframeRec)
        ensures
            final(self)@ == (CaptureView {
                py_names: first_kept(old(self)@.py_names, rec.id, nul_name(rec.name@)),
                ..old(self)@
            }),
            old(self).wf() ==> final(self).wf(),
    {
        let name = bytes_before(rec.name.as_slice(), 0);
        keep_first(&mut self.py_names, rec.id, name);
    }

    /// The part of a module's image to read its build id from; None where there
    /// is none, or the module's id is known.
    pub fn module_prefix(&self, rec: &SismoModuleRec) -> (r: Option<Vec<u8>>)
        requires
            rec.prefix@.len() == SISMO_MODULE_PREFIX,
        ensures
            match r {
                Some(p) => rec.prefix_len > 0 && !self@.build_ids.dom().contains(rec.base) && p@
                    == rec.prefix@.take(
                    bpf_records::shown(rec.prefix_len, SISMO_MODULE_PREFIX as nat) as int,
                ),
                None => rec.prefix_len == 0 || self@.build_ids.dom().contains(rec.base),
            },
    {
        if rec.prefix_len == 0 || self.build_ids.contains_key(&rec.base) {
            return None;
        }
        let n: usize = if rec.prefix_len < 4096 {
            rec.prefix_len as usize
        } else {
            SISMO_MODULE_PREFIX
        };
        let part = slice_subrange(rec.prefix.as_slice(), 0, n);
        assert(part@ =~= rec.prefix@.take(n as int));
        Some(slice_to_vec(part))
    }

    /// The build id `id` of the module at `base` was read in band. Mappings that
    /// were defined with another id are defined again: the packet that does so,
    /// where there are any.
    pub fn handle_module(&mut self, base: u64, id: &[u8]) -> (packet: Option<Vec<u8>>)
        requires
            old(self).wf(),
            old(self).interner@.room() >= 1,
        ensures
            final(self).wf(),
            ({
                let st = old(self)@.interner;
                let again = interner::needs_redefinition(st, base, id@);
                &&& packet is Some <==> again
                &&& packet matches Some(p) ==> p@ == module_packet(st, base, id@)
                &&& final(self)@ == (CaptureView {
                    interner: if again {
                        interner::build_id_step(st, id@).state
                    } else {
                        st
                    },
                    build_ids: old(self)@.build_ids.insert(base, id@),
                    ..old(self)@
                })
            }),
    {
        let ghost c = self@;
        let mut idw = ProtoWriter::new();
        let again = self.interner.reemit_build_id(base, id, &mut idw);
        let packet: Option<Vec<u8>> = if again {
            let mut tp = ProtoWriter::new();
            tp.write_uint32(13, SEQ_NEEDS_INCREMENTAL_STATE);
            tp.write_message(12, idw.bytes());
            proof {
                let st = c.interner;
                let b = interner::build_id_step(st, id@);
                assert(idw@ =~= b.out + interner::redefinitions(
                    st.defs,
                    base,
                    b.iid,
                    st.defs.len(),
                ));
                assert(tp@ =~= module_packet(st, base, id@));
            }
            Some(tp.into_bytes())
        } else {
            None
        };
        let kept = slice_to_vec(id);
        self.build_ids.insert(base, kept);
        proof {
            assert(self@.build_ids =~= c.build_ids.insert(base, id@));
        }
        packet
    }

    /// The real build id of the module at `base`: the one that was read in band,
    /// else the one of its file.
    pub fn real_build_id(&self, base: u64, file_id: &[u8]) -> (r: Vec<u8>)
        ensures
            r@ == (if self@.build_ids.dom().contains(base) {
                self@.build_ids[base]
            } else {
                file_id@
            }),
    {
        match self.build_ids.get(&base) {
            Some(id) => slice_to_vec(id.as_slice()),
            None => slice_to_vec(file_id),
        }
    }

    /// The Python frames of a sample whose process runs Python: those that the
    /// in-BPF walk attached, where it is armed and they are named, else those
    /// that `host_walk` found.
    pub fn python_frames(&self, rec: &SismoSampleRec, host_walk: Vec<Vec<u8>>) -> (r: Vec<Vec<u8>>)
        requires
            rec.wf(),
        ensures
            intern::rows(r@) == (if self@.python_bpf {
                known_names(self@.py_names, rec.py_frames(), rec.py_frames().len())
            } else {
                intern::rows(host_walk@)
            }),
    {
        if !self.python_bpf {
            return host_walk;
        }
        let n: usize = if rec.hdr.nr_py_frames < 16 {
            rec.hdr.nr_py_frames as usize
        } else {
            SISMO_MAX_PY_FRAMES
        };
        let ghost ids = rec.py_frames();
        let mut r: Vec<Vec<u8>> = Vec::new();
        let mut i: usize = 0;
        assert(intern::rows(r@) =~= Seq::empty());
        while i < n
            invariant
                i <= n,
                rec.wf(),
                n == bpf_records::shown(rec.hdr.nr_py_frames, SISMO_MAX_PY_FRAMES as nat),
                ids == rec.py_frames(),
                intern::rows(r@) == known_names(self@.py_names, ids, i as nat),
            decreases n - i,
        {
            let id: u32 = rec.py_ids[i];
            assert(ids[i as int] == id);
            if let Some(name) = self.py_names.get(&id) {
                assert(self@.py_names[id] == name@);
                let ghost before = intern::rows(r@);
                let copy = slice_to_vec(name.as_slice());
                r.push(copy);
                assert(intern::rows(r@) =~= before.push(name@));
            } else {
                assert(!self@.py_names.dom().contains(id));
            }
            i += 1;
        }
        r
    }

    /// The packet that starts the CPU sample sequence.
    fn emit_defaults(&self) -> (packet: Vec<u8>)
        requires
            self.wf(),
        ensures
            packet@ == cpu_defaults(self@.counters, self@.active_slots),
    {
        let ghost cs = self@.counters;
        let ghost slots = self@.active_slots;
        let mut followers: Vec<&[u8]> = Vec::new();
        let mut timebase: &[u8] = "cpu-clock".as_bytes();
        assert(packets::contents(followers@) =~= Seq::empty());
        if self.active_slots.len() > 0 {
            assert(self.active_slots@[0] < self.counters@.len());
            let first: usize = self.active_slots[0] as usize;
            assert(cs[first as int] == self.counters@[first as int]@);
            timebase = self.counters[first].name.as_bytes();
            let mut i: usize = 1;
            while i < self.active_slots.len()
                invariant
                    self.wf(),
                    1 <= i <= self.active_slots@.len(),
                    cs == self@.counters,
                    slots == self@.active_slots,
                    packets::contents(followers@) == follower_names(cs, slots).take(i - 1),
                decreases self.active_slots@.len() - i,
            {
                assert(self.active_slots@[i as int] < self.counters@.len());
                let k: usize = self.active_slots[i] as usize;
                let ghost before = packets::contents(followers@);
                let name: &[u8] = self.counters[k].name.as_bytes();
                followers.push(name);
                assert(packets::contents(followers@) =~= before.push(name@));
                assert(cs[k as int] == self.counters@[k as int]@);
                assert(follower_names(cs, slots)[i - 1] == name@);
                i += 1;
                assert(packets::contents(followers@) =~= follower_names(cs, slots).take(i - 1));
            }
        }
        assert(packets::contents(followers@) =~= follower_names(cs, slots));
        let mut w = ProtoWriter::new();
        write_perf_defaults_packet(
            &mut w,
            timebase,
            0,
            followers.as_slice(),
            SAMPLE_SCOPE_THREAD,
            BUILTIN_CLOCK_MONOTONIC,
            SEQ_INCREMENTAL_STATE_CLEARED,
        );
        proof {
            reveal(cpu_defaults);
        }
        assert(w@ =~= cpu_defaults(cs, slots));
        w.into_bytes()
    }

    /// The packet that starts the off-CPU sample sequence.
    fn emit_offcpu_defaults(&self) -> (packet: Vec<u8>)
        ensures
            packet@ == offcpu_defaults(),
    {
        let followers: Vec<&[u8]> = Vec::new();
        let mut w = ProtoWriter::new();
        write_perf_defaults_packet(
            &mut w,
            "off-cpu-ns".as_bytes(),
            0,
            followers.as_slice(),
            SAMPLE_SCOPE_THREAD,
            BUILTIN_CLOCK_MONOTONIC,
            SEQ_INCREMENTAL_STATE_CLEARED,
        );
        assert(packets::contents(followers@) =~= Seq::empty());
        proof {
            reveal(offcpu_defaults);
        }
        assert(w@ =~= offcpu_defaults());
        w.into_bytes()
    }

    /// Count a CPU sample.
    fn count_sample(&mut self, rec: &SismoSampleRec)
        requires
            old(self).wf(),
            rec.wf(),
            old(self).samples < u64::MAX,
        ensures
            final(self).wf(),
            final(self)@ == counted(old(self)@, *rec),
    {
        let ghost c = self@;
        self.samples = self.samples + 1;
        let tid: u32 = rec.hdr.tid;
        let cycles: u64 = rec.counters[0];
        let ghost before = self.acc@;
        let mut i: usize = 0;
        while i < self.acc.len()
            invariant
                i <= self.acc@.len(),
                self.acc@ == before,
                assoc::distinct_keys(before),
                forall|j: int| 0 <= j < i ==> (#[trigger] before[j]).0 != tid,
                self@ == (CaptureView { samples: (c.samples + 1) as u64, ..c }),
                c.acc == assoc::as_map(before),
                c == old(self)@,
                self.wf(),
                tid == rec.hdr.tid,
                cycles == rec.counters@[0],
            decreases self.acc@.len() - i,
        {
            if self.acc[i].0 == tid {
                self.acc.set(i, (tid, cycles));
                proof {
                    assoc::lemma_update(before, i as int, cycles);
                    assert(self.acc@ =~= before.update(i as int, (before[i as int].0, cycles)));
                    assert(self@ =~= counted(c, *rec));
                }
                return;
            }
            i += 1;
        }
        self.acc.push((tid, cycles));
        proof {
            assoc::lemma_push(before, tid, cycles);
            assert(self@ =~= counted(c, *rec));
        }
    }

    /// Count a CPU sample, and begin the sequence where a session is active:
    /// whether the sample is to be emitted, and the packet to emit before it.
    pub fn begin_sample(&mut self, rec: &SismoSampleRec) -> (r: (bool, Option<Vec<u8>>))
        requires
            old(self).wf(),
            rec.wf(),
            old(self).samples < u64::MAX,
        ensures
            final(self).wf(),
            r.0 == old(self)@.active,
            r.1 is Some <==> old(self)@.active && old(self)@.need_defaults,
            r.1 matches Some(p) ==> p@ == cpu_defaults(
                old(self)@.counters,
                old(self)@.active_slots,
            ),
            final(self)@ == (if old(self)@.active {
                begun_cpu(counted(old(self)@, *rec))
            } else {
                counted(old(self)@, *rec)
            }),
    {
        let ghost c = self@;
        self.count_sample(rec);
        if !self.active {
            return (false, None);
        }
        if self.need_defaults {
            self.need_defaults = false;
            self.interner.reset();
            let p = self.emit_defaults();
            assert(self@ =~= begun_cpu(counted(c, *rec)));
            (true, Some(p))
        } else {
            (true, None)
        }
    }

    /// Whether the region of the sample's data address is to be looked up.
    pub fn wants_data_symbol(&self, rec: &SismoSampleRec) -> (r: bool)
        ensures
            r == wants_data(self@.focus, rec.data_addr),
    {
        rec.data_addr != 0 && match self.focus {
            Some(p) => p == FocusPreset::Cache,
            None => false,
        }
    }

    /// The packet of a CPU sample. `label` is the region of its data address; it
    /// is used where [`Capture::wants_data_symbol`] says so.
    pub fn emit_sample(&mut self, rec: &SismoSampleRec, found: &Resolved, label: &[u8]) -> (packet:
        Vec<u8>)
        requires
            old(self).wf(),
            rec.wf(),
            found.wf(),
            old(self).data_frames < u64::MAX,
            old(self).interner@.room() >= found.cost(),
        ensures
            final(self).wf(),
            packet@ == cpu_packet(old(self)@, *rec, *found, label@),
            final(self)@ == after_cpu_sample(old(self)@, *rec, *found),
    {
        let ghost c = self@;
        let mut idw = ProtoWriter::new();
        let kernel = kernel_ids(rec);
        let cs_iid: u64 = intern_callstack(
            &mut self.interner,
            found.maps_known,
            &found.py_frames,
            &found.pcs,
            &found.lookups,
            &self.ksym_names,
            kernel,
            &mut idw,
        );
        proof {
            reveal(sample_stack);
        }
        let ghost counts = rec.counters@;
        let mut followers: Vec<u64> = Vec::new();
        let mut timebase: u64 = 0;
        if self.active_slots.len() > 0 {
            assert(self.active_slots@[0] < SISMO_MAX_COUNTERS);
            timebase = rec.counters[self.active_slots[0] as usize];
            let mut i: usize = 1;
            while i < self.active_slots.len()
                invariant
                    self.wf(),
                    rec.wf(),
                    counts == rec.counters@,
                    1 <= i <= self.active_slots@.len(),
                    followers@ == follower_counts(counts, self.active_slots@).take(i - 1),
                decreases self.active_slots@.len() - i,
            {
                assert(self.active_slots@[i as int] < SISMO_MAX_COUNTERS);
                followers.push(rec.counters[self.active_slots[i] as usize]);
                i += 1;
                assert(followers@ =~= follower_counts(counts, self.active_slots@).take(i - 1));
            }
        }
        assert(followers@ =~= follower_counts(counts, self.active_slots@));
        let mut data_address: u64 = 0;
        let mut data_symbol: Option<&[u8]> = None;
        if self.wants_data_symbol(rec) {
            data_address = rec.data_addr;
            data_symbol = Some(label);
            self.data_frames = self.data_frames + 1;
        }
        let mut tp = ProtoWriter::new();
        tp.write_uint64(8, rec.hdr.ts);
        tp.write_uint32(13, SEQ_NEEDS_INCREMENTAL_STATE);
        tp.write_nonempty(12, idw.bytes());
        write_perf_sample(
            &mut tp,
            TP_FIELD_PERF_SAMPLE,
            rec.hdr.cpu,
            rec.hdr.pid,
            rec.hdr.tid,
            cs_iid,
            timebase,
            followers.as_slice(),
            data_address,
            data_symbol,
        );
        proof {
            reveal(cpu_packet);
            assert(tp@ =~= cpu_packet(c, *rec, *found, label@));
            assert(self@ =~= after_cpu_sample(c, *rec, *found));
        }
        tp.into_bytes()
    }

    /// Count an off-CPU sample, and begin the sequence where a session is active:
    /// whether the sample is to be emitted, and the packet to emit before it.
    fn begin_offcpu(&mut self, rec: &SismoSampleRec) -> (r: (bool, Option<Vec<u8>>))
        requires
            old(self).wf(),
            old(self).offcpu_samples < u64::MAX,
        ensures
            final(self).wf(),
            r.0 == old(self)@.active,
            r.1 is Some <==> old(self)@.active && old(self)@.offcpu_need_defaults,
            r.1 matches Some(p) ==> p@ == offcpu_defaults(),
            final(self)@ == (if old(self)@.active {
                begun_offcpu(counted_offcpu(old(self)@, *rec))
            } else {
                counted_offcpu(old(self)@, *rec)
            }),
    {
        let ghost c = self@;
        self.offcpu_samples = self.offcpu_samples + 1;
        self.offcpu_ns = self.offcpu_ns.saturating_add(rec.data_addr);
        assert(self@ =~= counted_offcpu(c, *rec));
        if !self.active {
            return (false, None);
        }
        if self.offcpu_need_defaults {
            self.offcpu_need_defaults = false;
            self.offcpu_interner.reset();
            let p = self.emit_offcpu_defaults();
            assert(self@ =~= begun_offcpu(counted_offcpu(c, *rec)));
            (true, Some(p))
        } else {
            (true, None)
        }
    }

    /// The packet of an off-CPU sample.
    pub fn emit_offcpu_sample(&mut self, rec: &SismoSampleRec, found: &Resolved) -> (packet: Vec<u8>)
        requires
            old(self).wf(),
            rec.wf(),
            found.wf(),
            old(self).offcpu_interner@.room() >= found.cost(),
        ensures
            final(self).wf(),
            packet@ == offcpu_packet(old(self)@, *rec, *found),
            final(self)@ == after_offcpu_sample(old(self)@, *rec, *found),
    {
        let ghost c = self@;
        let mut idw = ProtoWriter::new();
        let kernel = kernel_ids(rec);
        let cs_iid: u64 = intern_callstack(
            &mut self.offcpu_interner,
            found.maps_known,
            &found.py_frames,
            &found.pcs,
            &found.lookups,
            &self.ksym_names,
            kernel,
            &mut idw,
        );
        proof {
            reveal(sample_stack);
        }
        let block_id: u64 = rec.counters[0];
        let mut data_symbol: Option<&[u8]> = None;
        if block_id / BLOCK_ID_FILE % 2 == 1 {
            let fid: u32 = (block_id % 0x4000_0000) as u32;
            if let Some(name) = self.file_names.get(&fid) {
                assert(c.file_names[fid] == name@);
                data_symbol = Some(name.as_slice());
            } else {
                assert(!c.file_names.dom().contains(fid));
            }
        }
        assert(packets::opt_bytes(data_symbol) == block_file(c.file_names, block_id));
        let none: Vec<u64> = Vec::new();
        let mut tp = ProtoWriter::new();
        tp.write_uint64(8, rec.hdr.ts);
        tp.write_uint32(13, SEQ_NEEDS_INCREMENTAL_STATE);
        tp.write_nonempty(12, idw.bytes());
        write_perf_sample(
            &mut tp,
            TP_FIELD_PERF_SAMPLE,
            rec.hdr.cpu,
            rec.hdr.pid,
            rec.hdr.tid,
            cs_iid,
            rec.data_addr,
            none.as_slice(),
            block_id,
            data_symbol,
        );
        proof {
            reveal(offcpu_packet);
            assert(none@ =~= Seq::empty());
            assert(tp@ =~= offcpu_packet(c, *rec, *found));
            assert(self@ =~= after_offcpu_sample(c, *rec, *found));
        }
        tp.into_bytes()
    }

    /// Count an off-CPU sample and emit it where a session is active. Returns the
    /// packets of the off-CPU sequence: its defaults where they are due, then the
    /// sample.
    pub fn handle_offcpu(&mut self, rec: &SismoSampleRec, found: &Resolved) -> (packets: Vec<Vec<u8>>)
        requires
            old(self).wf(),
            rec.wf(),
            found.wf(),
            old(self).room_for(found.cost()),
        ensures
            final(self).wf(),
            ({
                let c1 = counted_offcpu(old(self)@, *rec);
                let c2 = begun_offcpu(c1);
                if !c1.active {
                    final(self)@ == c1 && packets@.len() == 0
                } else {
                    &&& final(self)@ == after_offcpu_sample(c2, *rec, *found)
                    &&& intern::rows(packets@) == after_defaults(
                        c1.offcpu_need_defaults,
                        offcpu_defaults(),
                        offcpu_packet(c2, *rec, *found),
                    )
                }
            }),
    {
        let ghost c1 = counted_offcpu(self@, *rec);
        let mut packets: Vec<Vec<u8>> = Vec::new();
        let (emit, defaults) = self.begin_offcpu(rec);
        if !emit {
            return packets;
        }
        if let Some(d) = defaults {
            packets.push(d);
        }
        let p = self.emit_offcpu_sample(rec, found);
        packets.push(p);
        assert(intern::rows(packets@) =~= after_defaults(
            c1.offcpu_need_defaults,
            offcpu_defaults(),
            offcpu_packet(begun_offcpu(c1), *rec, *found),
        ));
        packets
    }

    /// Count a CPU sample and emit it where a session is active. Returns the
    /// packets of the CPU sequence: its defaults where they are due, then the
    /// sample.
    pub fn process_sample(&mut self, rec: &SismoSampleRec, found: &Resolved, label: &[u8]) -> (packets:
        Vec<Vec<u8>>)
        requires
            old(self).wf(),
            rec.wf(),
            found.wf(),
            old(self).room_for(found.cost()),
        ensures
            final(self).wf(),
            ({
                let c1 = counted(old(self)@, *rec);
                let c2 = begun_cpu(c1);
                if !c1.active {
                    final(self)@ == c1 && packets@.len() == 0
                } else {
                    &&& final(self)@ == after_cpu_sample(c2, *rec, *found)
                    &&& intern::rows(packets@) == after_defaults(
                        c1.need_defaults,
                        cpu_defaults(c1.counters, c1.active_slots),
                        cpu_packet(c2, *rec, *found, label@),
                    )
                }
            }),
    {
        let ghost c1 = counted(self@, *rec);
        let mut packets: Vec<Vec<u8>> = Vec::new();
        let (emit, defaults) = self.begin_sample(rec);
        if !emit {
            return packets;
        }
        if let Some(d) = defaults {
            packets.push(d);
        }
        let p = self.emit_sample(rec, found, label);
        packets.push(p);
        assert(intern::rows(packets@) =~= after_defaults(
            c1.need_defaults,
            cpu_defaults(c1.counters, c1.active_slots),
            cpu_packet(begun_cpu(c1), *rec, *found, label@),
        ));
        packets
    }

    /// What the recording counted.
    pub fn stats(&self) -> (r: LinuxBpfStats)
        requires
            self.wf(),
        ensures
            r.samples == self@.samples,
            r.data_frames == self@.data_frames,
            r.offcpu_samples == self@.offcpu_samples,
            r.offcpu_ns == self@.offcpu_ns,
            self@.acc.dom().finite(),
            r.threads == self@.acc.dom().len(),
            forall|t: u32| #[trigger]
                self@.acc.dom().contains(t) ==> self@.acc[t] <= r.busiest_cycles,
            r.busiest_cycles == 0 || exists|t: u32| #[trigger]
                self@.acc.dom().contains(t) && self@.acc[t] == r.busiest_cycles,
    {
        let ghost acc = self.acc@;
        let mut busiest: u64 = 0;
        let mut i: usize = 0;
        while i < self.acc.len()
            invariant
                i <= self.acc@.len(),
                acc == self.acc@,
                assoc::distinct_keys(acc),
                forall|j: int| 0 <= j < i ==> (#[trigger] acc[j]).1 <= busiest,
                busiest == 0 || exists|t: u32| #[trigger]
                    assoc::as_map(acc).dom().contains(t) && assoc::as_map(acc)[t] == busiest,
            decreases self.acc@.len() - i,
        {
            if self.acc[i].1 > busiest {
                busiest = self.acc[i].1;
                proof {
                    assoc::lemma_entry(acc, i as int);
                    assert(assoc::as_map(acc).dom().contains(acc[i as int].0));
                }
            }
            i += 1;
        }
        proof {
            assoc::lemma_len(acc);
            if busiest != 0 {
                let t = choose|t: u32| #[trigger]
                    assoc::as_map(acc).dom().contains(t) && assoc::as_map(acc)[t] == busiest;
                assert(self@.acc.dom().contains(t));
            }
            assert forall|t: u32| #[trigger] self@.acc.dom().contains(t) implies self@.acc[t]
                <= busiest by {
                assert(assoc::has_key(acc, t));
                let j = choose|j: int| 0 <= j < acc.len() && (#[trigger] acc[j]).0 == t;
                assoc::lemma_entry(acc, j);
            }
        }
        LinuxBpfStats {
            samples: self.samples,
            threads: self.acc.len() as u64,
            busiest_cycles: busiest,
            data_frames: self.data_frames,
            offcpu_samples: self.offcpu_samples,
            offcpu_ns: self.offcpu_ns,
        }
    }
}

/// The names of the first `n` ids that are known.
pub open spec fn known_names(m: Map<u32, Seq<u8>>, ids: Seq<u32>, n: nat) -> Seq<Seq<u8>>
    decreases n,
{
    if n == 0 {
        Seq::empty()
    } else {
        let before = known_names(m, ids, (n - 1) as nat);
        if m.dom().contains(ids[n - 1]) {
            before.push(m[ids[n - 1]])
        } else {
            before
        }
    }
}

/// The kernel symbol ids that were sampled.
fn kernel_ids(rec: &SismoSampleRec) -> (r: &[u32])
    requires
        rec.wf(),
    ensures
        r@ == rec.kernel_frames(),
        r@.len() <= SISMO_MAX_KERNEL_STACK,
{
    let n: usize = if rec.hdr.nr_kernel_frames < 64 {
        rec.hdr.nr_kernel_frames as usize
    } else {
        SISMO_MAX_KERNEL_STACK
    };
    let r = slice_subrange(rec.kernel_ids.as_slice(), 0, n);
    assert(r@ =~= rec.kernel_frames());
    r
}

/// The u64 that a snapshot of the user stack holds for an address: the stack
/// starts at `sp`, and `len` bytes of it were copied.
pub open spec fn snapshot_value(stack: Seq<u8>, sp: u64, len: nat, addr: u64) -> Option<u64> {
    if addr >= sp && addr - sp + 8 <= len {
        Some(bytes::le_u64(stack, addr - sp))
    } else {
        None
    }
}

/// How much of the user stack a record's snapshot holds.
pub open spec fn snapshot_len(rec: SismoUnwindRec) -> nat {
    bpf_records::shown(rec.stack_len, SISMO_STACK_SNAP_MAX as nat)
}

/// The u64 at `addr` of the user stack, where the snapshot holds it.
pub fn read_snapshot(rec: &SismoUnwindRec, addr: u64) -> (r: Option<u64>)
    requires
        rec.stack_bytes@.len() == SISMO_STACK_SNAP_MAX,
    ensures
        r == snapshot_value(rec.stack_bytes@, rec.regs_sp, snapshot_len(*rec), addr),
{
    let len: u64 = if rec.stack_len < 8192 {
        rec.stack_len as u64
    } else {
        SISMO_STACK_SNAP_MAX as u64
    };
    if addr < rec.regs_sp {
        return None;
    }
    let off: u64 = addr - rec.regs_sp;
    if off > len || len - off < 8 {
        return None;
    }
    Some(read_le_u64(rec.stack_bytes.as_slice(), off as usize))
}

/// The user stack of an unwind record, of the frame pointer walk `fp`, the walk
/// `go` by Go's tables and the walk `dwarf` by unwind tables. Without a snapshot
/// there is only the first; another is taken only where it recovered more frames,
/// Go's before the other.
pub open spec fn chosen_stack(
    stack_len: u32,
    fp: Seq<u64>,
    go: Option<Seq<u64>>,
    dwarf: Option<Seq<u64>>,
) -> Seq<u64> {
    if stack_len == 0 {
        fp
    } else if go is Some && go->0.len() > fp.len() {
        go->0
    } else if dwarf is Some && dwarf->0.len() > fp.len() {
        dwarf->0
    } else {
        fp
    }
}

pub open spec fn opt_list(v: Option<Vec<u64>>) -> Option<Seq<u64>> {
    match v {
        Some(l) => Some(l@),
        None => None,
    }
}

/// The user stack of an unwind record.
pub fn unwind_user_stack(
    rec: &SismoUnwindRec,
    go: Option<Vec<u64>>,
    dwarf: Option<Vec<u64>>,
) -> (r: Vec<u64>)
    requires
        rec.sample.wf(),
    ensures
        r@ == chosen_stack(rec.stack_len, rec.sample.user_pcs(), opt_list(go), opt_list(dwarf)),
{
    let fp = rec.sample.user_stack();
    if rec.stack_len == 0 {
        return fp;
    }
    if let Some(pcs) = go {
        if pcs.len() > fp.len() {
            return pcs;
        }
    }
    if let Some(pcs) = dwarf {
        if pcs.len() > fp.len() {
            return pcs;
        }
    }
    fp
}

/// The memory regions of the target, as they were when they were last read.
pub struct RegionCache {
    pub regions: Option<DataRegions>,
    pub last_parse_ns: u64,
}

/// What to do about a data address.
pub enum RegionStep {
    /// It has this label.
    Label(Vec<u8>),
    /// Read the target's maps and hand them to [`RegionCache::parsed`].
    Parse,
}

/// The label of the region that holds `addr`, where the regions are known and one
/// does.
pub open spec fn region_label(regions: Option<DataRegions>, addr: u64) -> Option<Seq<u8>> {
    match regions {
        Some(d) => match data_regions::found(d.regions@, addr) {
            Some(k) => Some(encode_utf8(d.regions@[k as int].label@)),
            None => None,
        },
        None => None,
    }
}

/// Whether `v` is the parse of `raw`.
pub open spec fn is_parse(v: Option<DataRegions>, raw: Option<&str>) -> bool {
    match (v, raw) {
        (Some(d), Some(t)) => data_regions::views(d.regions@) == data_regions::text_regions(t@),
        (None, None) => true,
        _ => false,
    }
}

impl RegionCache {
    pub fn new() -> (r: Self)
        ensures
            r.regions is None,
            r.last_parse_ns == 0,
    {
        RegionCache { regions: None, last_parse_ns: 0 }
    }

    /// Whether the regions have to be read before `addr` can be labelled at
    /// `now_ns`: never for an address of the kernel; else where they were never
    /// read, or the address is in none and they are over 100 ms old.
    pub open spec fn needs_parse(self, addr: u64, now_ns: u64) -> bool {
        &&& addr <= USER_ADDR_MAX
        &&& self.regions is None || (region_label(self.regions, addr) is None
            && vstd::wrapping::u64_specs::wrapping_sub(now_ns, self.last_parse_ns) > 100_000_000)
    }

    fn lookup(&self, addr: u64) -> (r: Option<Vec<u8>>)
        ensures
            match r {
                Some(l) => region_label(self.regions, addr) == Some(l@),
                None => region_label(self.regions, addr) is None,
            },
    {
        match &self.regions {
            Some(d) => match d.find(addr) {
                Some(r) => Some(slice_to_vec(r.label.as_str().as_bytes())),
                None => None,
            },
            None => None,
        }
    }

    /// The label of a data address, or that the regions have to be read first.
    pub fn data_region_label(&self, addr: u64, now_ns: u64) -> (r: RegionStep)
        ensures
            match r {
                RegionStep::Parse => self.needs_parse(addr, now_ns),
                RegionStep::Label(l) => !self.needs_parse(addr, now_ns) && l@ == (if addr
                    > USER_ADDR_MAX {
                    "[kernel]".spec_bytes()
                } else {
                    match region_label(self.regions, addr) {
                        Some(x) => x,
                        None => "[unmapped]".spec_bytes(),
                    }
                }),
            },
    {
        if addr > USER_ADDR_MAX {
            return RegionStep::Label(slice_to_vec("[kernel]".as_bytes()));
        }
        if self.regions.is_none() {
            return RegionStep::Parse;
        }
        if let Some(l) = self.lookup(addr) {
            return RegionStep::Label(l);
        }
        if now_ns.wrapping_sub(self.last_parse_ns) > 100_000_000 {
            return RegionStep::Parse;
        }
        RegionStep::Label(slice_to_vec("[unmapped]".as_bytes()))
    }

    /// The target's maps were read at `now_ns` for `addr`: the label. Maps that
    /// could not be read leave the regions as they are; a first read that failed
    /// leaves the time as it is too.
    pub fn parsed(&mut self, addr: u64, now_ns: u64, raw: Option<&str>) -> (label: Vec<u8>)
        ensures
            raw is Some ==> is_parse(final(self).regions, raw),
            raw is None ==> final(self).regions == old(self).regions,
            final(self).last_parse_ns == (if raw is None && old(self).regions is None {
                old(self).last_parse_ns
            } else {
                now_ns
            }),
            label@ == (if raw is None {
                "[unmapped]".spec_bytes()
            } else {
                match region_label(final(self).regions, addr) {
                    Some(x) => x,
                    None => "[unmapped]".spec_bytes(),
                }
            }),
    {
        let fresh = DataRegions::parse(raw);
        if self.regions.is_some() || fresh.is_some() {
            self.last_parse_ns = now_ns;
        }
        if fresh.is_some() {
            self.regions = fresh;
            if let Some(l) = self.lookup(addr) {
                return l;
            }
        }
        slice_to_vec("[unmapped]".as_bytes())
    }
}

impl Default for RegionCache {
    fn default() -> (r: Self)
        ensures
            r.regions is None,
            r.last_parse_ns == 0,
    {
        RegionCache::new()
    }
}

/// What the worker does about the requests of the tracing thread.
#[derive(Clone, Copy, PartialEq, Eq, Structural, Debug)]
pub enum AckAction {
    /// Emit what is left in the ring buffer.
    Consume,
    /// Commit what the off-CPU sequence holds.
    FlushOffcpu,
    FlushDone,
    Deactivate,
    StopDone,
}

/// The last records are emitted before a request is answered, and the session ends
/// before its stop is answered.
pub open spec fn ack_actions(flush: bool, stop: bool) -> Seq<AckAction> {
    let f = if flush {
        seq![AckAction::Consume, AckAction::FlushOffcpu, AckAction::FlushDone]
    } else {
        Seq::empty()
    };
    let s = if stop {
        seq![
            AckAction::Consume,
            AckAction::FlushOffcpu,
            AckAction::Deactivate,
            AckAction::StopDone,
        ]
    } else {
        Seq::empty()
    };
    f + s
}

/// What the worker does about a pending flush and a pending stop.
pub fn service_acks(flush: bool, stop: bool) -> (r: Vec<AckAction>)
    ensures
        r@ == ack_actions(flush, stop),
{
    let mut r: Vec<AckAction> = Vec::new();
    if flush {
        r.push(AckAction::Consume);
        r.push(AckAction::FlushOffcpu);
        r.push(AckAction::FlushDone);
    }
    if stop {
        r.push(AckAction::Consume);
        r.push(AckAction::FlushOffcpu);
        r.push(AckAction::Deactivate);
        r.push(AckAction::StopDone);
    }
    assert(r@ =~= ack_actions(flush, stop));
    r
}

// ---- what the packets say ----------------------------------------------------

/// What a reader of a sample's packet finds: the moment under 8, that it needs what was
/// defined before (13), what it defines under 12, and the sample under 66.
#[verifier::spinoff_prover]
#[verifier::rlimit(40)]
proof fn lemma_sample_packet_read_back(ts: u64, interned: Seq<u8>, sample: Seq<u8>)
    requires
        sample_packet(ts, interned, sample).len() < 0x8_0000_0000,
    ensures
        ({
            let p = sample_packet(ts, interned, sample);
            &&& interned.len() < 0x8_0000_0000
            &&& sample.len() < 0x8_0000_0000
            &&& wire::under(p, 8) == wire::one(ts)
            &&& wire::under(p, 13) == wire::one(2)
            &&& interned.len() > 0 ==> wire::under(p, 12) == wire::one_text(interned)
            &&& interned.len() == 0 ==> wire::under(p, 12).len() == 0
            &&& wire::under(p, 66) == wire::one_text(sample)
        }),
{
    let a = wire::varint_field(8, ts);
    let b = wire::varint_field(13, SEQ_NEEDS_INCREMENTAL_STATE as u64);
    let c = wire::nonempty_field(12, interned);
    let d = wire::sub_message(TP_FIELD_PERF_SAMPLE, sample);
    let p = sample_packet(ts, interned, sample);
    assert(p.len() == a.len() + b.len() + c.len() + d.len());
    assert(c.len() >= interned.len());
    wire::lemma_under_varint(8, ts);
    wire::lemma_under_varint(13, SEQ_NEEDS_INCREMENTAL_STATE as u64);
    wire::lemma_under_nonempty(12, interned);
    wire::lemma_under_sub_message(TP_FIELD_PERF_SAMPLE, sample);
    wire::lemma_join(a, b);
    wire::lemma_join(a + b, c);
    wire::lemma_join(a + b + c, d);
    assert(wire::under(p, 8) =~= wire::one(ts));
    assert(wire::under(p, 13) =~= wire::one(2));
    assert(wire::under(p, 12) =~= wire::under(c, 12));
    assert(wire::under(p, 66) =~= wire::one_text(sample));
}

/// Whether a callstack, read from its end, runs through these places.
pub open spec fn shows(st: InternState, iid: u64, places: Seq<callstack::Place>) -> bool {
    &&& iid == 0 <==> places.len() == 0
    &&& places.len() > 0 ==> {
        &&& 1 <= iid <= st.callstacks.len()
        &&& st.callstacks[iid - 1].len() == places.len()
        &&& forall|t: int|
            0 <= t < places.len() ==> callstack::stands_for(
                st,
                st.callstacks[iid - 1][places.len() - 1 - t],
                #[trigger] places[t],
            )
    }
}

/// All that a sample shows of its stack, from the innermost frame outward.
pub open spec fn sampled_places(
    ksyms: Map<u32, Seq<u8>>,
    rec: SismoSampleRec,
    found: Resolved,
) -> Seq<callstack::Place> {
    callstack::from_innermost(
        found.maps_known,
        intern::rows(found.py_frames@),
        found.pcs@,
        found.lookups@,
        ksyms,
        rec.kernel_ids@.take(
            if rec.hdr.nr_kernel_frames < 64 {
                rec.hdr.nr_kernel_frames as int
            } else {
                64
            },
        ),
    )
}

/// What a reader of a packet of a sample finds: who was sampled and when, the callstack,
/// as the tables have it after the packet, and that what the callstack refers to has
/// been told.
pub open spec fn tells_sample(
    p: Seq<u8>,
    body: Seq<u8>,
    before: InternState,
    after: InternState,
    ksyms: Map<u32, Seq<u8>>,
    rec: SismoSampleRec,
    found: Resolved,
) -> bool {
    &&& wire::under(p, 66) == wire::one_text(body)
    &&& wire::under(p, 8) == wire::one(rec.hdr.ts)
    &&& wire::under(p, 13) == wire::one(2)
    &&& wire::under(body, 1) == wire::one_unless_zero(rec.hdr.cpu as u64)
    &&& wire::under(body, 2) == wire::one_unless_zero(rec.hdr.pid as u64)
    &&& wire::under(body, 3) == wire::one_unless_zero(rec.hdr.tid as u64)
    &&& exists|iid: u64|
        wire::under(body, 4) == #[trigger] wire::one_unless_zero(iid) && shows(
            after,
            iid,
            sampled_places(ksyms, rec, found),
        )
    &&& exists|out: Seq<u8>|
        {
            &&& #[trigger] told::tells(before, after, out)
            &&& out.len() > 0 ==> wire::under(p, 12) == wire::one_text(out)
            &&& out.len() == 0 ==> wire::under(p, 12).len() == 0
        }
}

proof fn lemma_stack_read_back(
    st: InternState,
    ksyms: Map<u32, Seq<u8>>,
    rec: SismoSampleRec,
    found: Resolved,
)
    requires
        st.wf(),
        rec.wf(),
        found.wf(),
        st.room() >= found.cost(),
        sample_stack(st, ksyms, rec, found).out.len() < 0x8_0000_0000,
    ensures
        ({
            let s = sample_stack(st, ksyms, rec, found);
            &&& shows(s.state, s.iid, sampled_places(ksyms, rec, found))
            &&& told::tells(st, s.state, s.out)
        }),
{
    reveal(sample_stack);
    let py = intern::rows(found.py_frames@);
    assert(rec.kernel_frames().len() <= SISMO_MAX_KERNEL_STACK);
    assert(found.cost() >= callstack::callstack_cost(
        py.len(),
        found.pcs@.len(),
        rec.kernel_frames().len(),
    ));
    callstack::lemma_callstack_runs_outward(
        st,
        found.maps_known,
        py,
        found.pcs@,
        found.lookups@,
        ksyms,
        rec.kernel_frames(),
    );
}

/// The law of an off-CPU sample: its packet says who was blocked and until when, on which
/// stack, and for how long. The time off the CPU, in nanoseconds, is the weight of the
/// sample (6); under 20 is what the thread waited on, and under 21 the name of the file,
/// where that is one (bit 62) that was heard of.
#[verifier::spinoff_prover]
#[verifier::rlimit(40)]
pub proof fn lemma_offcpu_packet_read_back(c: CaptureView, rec: SismoSampleRec, found: Resolved)
    requires
        c.offcpu_interner.wf(),
        rec.wf(),
        found.wf(),
        c.offcpu_interner.room() >= found.cost(),
        offcpu_packet(c, rec, found).len() < 0x8_0000_0000,
    ensures
        exists|body: Seq<u8>|
            {
                &&& #[trigger] tells_sample(
                    offcpu_packet(c, rec, found),
                    body,
                    c.offcpu_interner,
                    after_offcpu_sample(c, rec, found).offcpu_interner,
                    c.ksym_names,
                    rec,
                    found,
                )
                &&& wire::under(body, 6) == wire::one_unless_zero(rec.data_addr)
                &&& wire::under(body, 7).len() == 0
                &&& wire::under(body, 20) == wire::one_unless_zero(rec.counters@[0])
                &&& ({
                    let id = (rec.counters@[0] & 0x3fff_ffff) as u32;
                    let known = rec.counters@[0] & 0x4000_0000_0000_0000 != 0
                        && c.file_names.dom().contains(id);
                    &&& known ==> wire::under(body, 21) == wire::one_text(c.file_names[id])
                    &&& !known ==> wire::under(body, 21).len() == 0
                })
            },
{
    reveal(offcpu_packet);
    let s = sample_stack(c.offcpu_interner, c.ksym_names, rec, found);
    let block = rec.counters@[0];
    let symbol = block_file(c.file_names, block);
    assert((block / 0x4000_0000_0000_0000 % 2 == 1) == (block & 0x4000_0000_0000_0000 != 0))
        by (bit_vector);
    assert(block & 0x3fff_ffff == block % 0x4000_0000) by (bit_vector);
    let body = packets::perf_sample_body(
        rec.hdr.cpu,
        rec.hdr.pid,
        rec.hdr.tid,
        s.iid,
        rec.data_addr,
        Seq::empty(),
        block,
        symbol,
    );
    let p = offcpu_packet(c, rec, found);
    assert(p == sample_packet(rec.hdr.ts, s.out, body));
    lemma_sample_packet_read_back(rec.hdr.ts, s.out, body);
    if let Some(name) = symbol {
        assert(body.len() >= name.len());
    }
    packets::lemma_perf_sample_read_back(
        rec.hdr.cpu,
        rec.hdr.pid,
        rec.hdr.tid,
        s.iid,
        rec.data_addr,
        Seq::empty(),
        block,
        symbol,
    );
    lemma_stack_read_back(c.offcpu_interner, c.ksym_names, rec, found);
    let after = after_offcpu_sample(c, rec, found).offcpu_interner;
    assert(after == s.state);
    assert(wire::under(body, 4) == wire::one_unless_zero(s.iid));
    assert(told::tells(c.offcpu_interner, after, s.out));
    assert(tells_sample(p, body, c.offcpu_interner, after, c.ksym_names, rec, found));
}

/// The weight that a reader finds in a sample's packet: what is under 6 of the message
/// under 66, or 0.
pub open spec fn weight_told(p: Seq<u8>) -> nat {
    match wire::under(p, 66)[0] {
        FieldValue::Len(body) => if wire::under(body, 6).len() == 1 {
            match wire::under(body, 6)[0] {
                FieldValue::Varint(v) => v as nat,
                _ => 0,
            }
        } else {
            0
        },
        _ => 0,
    }
}

/// The collector after `n` off-CPU samples of an active session.
pub open spec fn after_blocks(c: CaptureView, recs: Seq<(SismoSampleRec, Resolved)>, n: nat) -> CaptureView
    decreases n,
{
    if n == 0 {
        c
    } else {
        let b = begun_offcpu(
            counted_offcpu(after_blocks(c, recs, (n - 1) as nat), recs[n - 1].0),
        );
        after_offcpu_sample(b, recs[n - 1].0, recs[n - 1].1)
    }
}

/// The packet of the `i`th of these samples.
pub open spec fn block_packet(c: CaptureView, recs: Seq<(SismoSampleRec, Resolved)>, i: int) -> Seq<u8> {
    offcpu_packet(
        begun_offcpu(counted_offcpu(after_blocks(c, recs, i as nat), recs[i].0)),
        recs[i].0,
        recs[i].1,
    )
}

/// The weights that a reader finds in the packets of the first `n`, added up.
pub open spec fn weights_told(c: CaptureView, recs: Seq<(SismoSampleRec, Resolved)>, n: nat) -> nat
    decreases n,
{
    if n == 0 {
        0
    } else {
        weights_told(c, recs, (n - 1) as nat) + weight_told(block_packet(c, recs, n - 1))
    }
}

/// Whether there is room for each of these samples, and none is too long for a packet.
pub open spec fn blocks_fit(c: CaptureView, recs: Seq<(SismoSampleRec, Resolved)>, n: nat) -> bool {
    forall|i: int|
        0 <= i < n ==> {
            let b = begun_offcpu(
                counted_offcpu(after_blocks(c, recs, i as nat), (#[trigger] recs[i]).0),
            );
            &&& recs[i].0.wf()
            &&& recs[i].1.wf()
            &&& b.offcpu_interner.wf()
            &&& b.offcpu_interner.room() >= recs[i].1.cost()
            &&& block_packet(c, recs, i).len() < 0x8_0000_0000
        }
}

/// The law of off-CPU time: over the samples of a session, what the packets weigh adds up
/// to what the recording says it has counted, as long as that is not full.
#[verifier::spinoff_prover]
#[verifier::rlimit(40)]
pub proof fn lemma_weights_add_up(c: CaptureView, recs: Seq<(SismoSampleRec, Resolved)>, n: nat)
    requires
        n <= recs.len(),
        blocks_fit(c, recs, n),
        c.offcpu_samples + n <= u64::MAX,
        after_blocks(c, recs, n).offcpu_ns < u64::MAX,
    ensures
        after_blocks(c, recs, n).offcpu_ns == c.offcpu_ns + weights_told(c, recs, n),
        after_blocks(c, recs, n).offcpu_samples == c.offcpu_samples + n,
    decreases n,
{
    if n > 0 {
        let m = (n - 1) as nat;
        let before = after_blocks(c, recs, m);
        let (rec, found) = recs[n - 1];
        let b = begun_offcpu(counted_offcpu(before, rec));
        assert(after_blocks(c, recs, n).offcpu_ns == counted_offcpu(before, rec).offcpu_ns);
        assert(before.offcpu_ns < u64::MAX);
        assert(blocks_fit(c, recs, m));
        lemma_weights_add_up(c, recs, m);
        assert(recs[n - 1].0.wf());
        lemma_offcpu_packet_read_back(b, rec, found);
        let p = block_packet(c, recs, n - 1);
        assert(p == offcpu_packet(b, rec, found));
        let body = choose|body: Seq<u8>|
            {
                &&& #[trigger] tells_sample(
                    p,
                    body,
                    b.offcpu_interner,
                    after_offcpu_sample(b, rec, found).offcpu_interner,
                    b.ksym_names,
                    rec,
                    found,
                )
                &&& wire::under(body, 6) == wire::one_unless_zero(rec.data_addr)
            };
        assert(wire::under(p, 66)[0] == FieldValue::Len(body));
        if rec.data_addr != 0 {
            assert(wire::under(body, 6)[0] == FieldValue::Varint(rec.data_addr));
        }
        assert(weight_told(p) == rec.data_addr);
    }
}

/// The law of a CPU sample: its packet says who was sampled and when, on which stack, and
/// what the counters stood at: the first active one is the timebase (6), the others follow
/// in their order (7). With the focus on the cache, an address of data is told (20), with
/// what it belongs to (21); otherwise neither is.
pub proof fn lemma_cpu_packet_read_back(
    c: CaptureView,
    rec: SismoSampleRec,
    found: Resolved,
    label: Seq<u8>,
)
    requires
        c.interner.wf(),
        rec.wf(),
        found.wf(),
        c.interner.room() >= found.cost(),
        cpu_packet(c, rec, found, label).len() < 0x8_0000_0000,
    ensures
        exists|body: Seq<u8>|
            {
                &&& #[trigger] tells_sample(
                    cpu_packet(c, rec, found, label),
                    body,
                    c.interner,
                    after_cpu_sample(c, rec, found).interner,
                    c.ksym_names,
                    rec,
                    found,
                )
                &&& c.active_slots.len() > 0 ==> wire::under(body, 6) == wire::one_unless_zero(
                    rec.counters@[c.active_slots[0] as int],
                )
                &&& c.active_slots.len() > 0 ==> wire::under(body, 7).len() == c.active_slots.len()
                    - 1
                &&& c.active_slots.len() == 0 ==> wire::under(body, 6).len() == 0 && wire::under(
                    body,
                    7,
                ).len() == 0
                &&& forall|k: int|
                    1 <= k < c.active_slots.len() ==> wire::under(body, 7)[k - 1]
                        == FieldValue::Varint(rec.counters@[#[trigger] c.active_slots[k] as int])
                &&& c.focus == Some(FocusPreset::Cache) && rec.data_addr != 0 ==> wire::under(
                    body,
                    20,
                ) == wire::one(rec.data_addr) && wire::under(body, 21) == wire::one_text(label)
                &&& c.focus is None || rec.data_addr == 0 ==> wire::under(body, 20).len() == 0
                    && wire::under(body, 21).len() == 0
            },
{
    reveal(cpu_packet);
    let s = sample_stack(c.interner, c.ksym_names, rec, found);
    let data = wants_data(c.focus, rec.data_addr);
    let addr = if data {
        rec.data_addr
    } else {
        0
    };
    let symbol = if data {
        Some(label)
    } else {
        None
    };
    let count = timebase_count(rec.counters@, c.active_slots);
    let others = follower_counts(rec.counters@, c.active_slots);
    let body = packets::perf_sample_body(
        rec.hdr.cpu,
        rec.hdr.pid,
        rec.hdr.tid,
        s.iid,
        count,
        others,
        addr,
        symbol,
    );
    let p = cpu_packet(c, rec, found, label);
    assert(p == sample_packet(rec.hdr.ts, s.out, body));
    lemma_sample_packet_read_back(rec.hdr.ts, s.out, body);
    if data {
        assert(body.len() >= label.len());
    }
    packets::lemma_perf_sample_read_back(
        rec.hdr.cpu,
        rec.hdr.pid,
        rec.hdr.tid,
        s.iid,
        count,
        others,
        addr,
        symbol,
    );
    lemma_stack_read_back(c.interner, c.ksym_names, rec, found);
    let after = after_cpu_sample(c, rec, found).interner;
    assert(after == s.state);
    assert(wire::under(body, 4) == wire::one_unless_zero(s.iid));
    assert(told::tells(c.interner, after, s.out));
    assert(tells_sample(p, body, c.interner, after, c.ksym_names, rec, found));
    assert forall|k: int| 1 <= k < c.active_slots.len() implies wire::under(body, 7)[k - 1]
        == FieldValue::Varint(rec.counters@[#[trigger] c.active_slots[k] as int]) by {
        assert(others[k - 1] == rec.counters@[c.active_slots[k] as int]);
    }
}

/// The names that start a sequence line up with the counts of its samples: the timebase
/// is named after the first active counter, the followers after the others, in their
/// order. The packet clears what was known (1); times are of the monotonic clock (3), and
/// counts are of a thread (2).
pub proof fn lemma_cpu_defaults_read_back(counters: Seq<CounterView>, slots: Seq<u8>)
    requires
        slots.len() > 0,
        cpu_defaults(counters, slots).len() < 0x8_0000_0000,
    ensures
        ({
            let p = cpu_defaults(counters, slots);
            &&& wire::under(p, 13) == wire::one(1)
            &&& exists|d: Seq<u8>, s: Seq<u8>, t: Seq<u8>|
                {
                    &&& #[trigger] wire::one_text(d) == wire::under(p, 59)
                    &&& wire::under(d, 58) == wire::one(3)
                    &&& #[trigger] wire::one_text(s) == wire::under(d, 12)
                    &&& wire::under(s, 5) == wire::one(2)
                    &&& #[trigger] wire::one_text(t) == wire::under(s, 1)
                    &&& wire::under(t, 10) == wire::one_text(
                        encode_utf8(counters[slots[0] as int].name),
                    )
                    &&& wire::under(t, 2).len() == 0
                    &&& wire::under(s, 4).len() == slots.len() - 1
                    &&& forall|k: int|
                        1 <= k < slots.len() ==> packets::follower_told(
                            wire::under(s, 4)[k - 1],
                            encode_utf8(counters[#[trigger] slots[k] as int].name),
                        )
                }
        }),
{
    reveal(cpu_defaults);
    let names = follower_names(counters, slots);
    packets::lemma_perf_defaults_read_back(
        timebase_name(counters, slots),
        0,
        names,
        SAMPLE_SCOPE_THREAD,
        BUILTIN_CLOCK_MONOTONIC,
        SEQ_INCREMENTAL_STATE_CLEARED,
    );
    let p = cpu_defaults(counters, slots);
    let (d, s, t) = choose|d: Seq<u8>, s: Seq<u8>, t: Seq<u8>|
        {
            &&& #[trigger] wire::one_text(d) == wire::under(p, 59)
            &&& wire::under(d, 58) == wire::one_unless_zero(BUILTIN_CLOCK_MONOTONIC as u64)
            &&& #[trigger] wire::one_text(s) == wire::under(d, 12)
            &&& wire::under(s, 5) == wire::one_unless_zero(SAMPLE_SCOPE_THREAD as u64)
            &&& #[trigger] wire::one_text(t) == wire::under(s, 1)
            &&& wire::under(t, 10) == wire::one_text(timebase_name(counters, slots))
            &&& wire::under(t, 2) == wire::one_unless_zero(0)
            &&& wire::under(s, 4).len() == names.len()
            &&& forall|k: int|
                0 <= k < names.len() ==> packets::follower_told(
                    #[trigger] wire::under(s, 4)[k],
                    names[k],
                )
        };
    assert forall|k: int| 1 <= k < slots.len() implies packets::follower_told(
        wire::under(s, 4)[k - 1],
        encode_utf8(counters[#[trigger] slots[k] as int].name),
    ) by {
        assert(packets::follower_told(wire::under(s, 4)[k - 1], names[k - 1]));
    }
    assert(wire::one_text(d) == wire::under(p, 59) && wire::one_text(s) == wire::under(d, 12)
        && wire::one_text(t) == wire::under(s, 1));
}

/// A session's sequences begin once each: the first sample after the start has the
/// defaults before it and is told from empty tables, no later one does until the next
/// start.
pub proof fn lemma_sequences_begin_once(c: CaptureView)
    ensures
        c.need_defaults ==> begun_cpu(c).interner == InternState::new(),
        !c.need_defaults ==> begun_cpu(c) == c,
        !begun_cpu(c).need_defaults,
        begun_cpu(c).offcpu_need_defaults == c.offcpu_need_defaults,
        begun_cpu(c).offcpu_interner == c.offcpu_interner,
        c.offcpu_need_defaults ==> begun_offcpu(c).offcpu_interner == InternState::new(),
        !c.offcpu_need_defaults ==> begun_offcpu(c) == c,
        !begun_offcpu(c).offcpu_need_defaults,
        begun_offcpu(c).need_defaults == c.need_defaults,
        begun_offcpu(c).interner == c.interner,
{
}

/// Where names end: one of a file or of a Python frame at its first NUL, one of a kernel
/// symbol there or at its first plus sign, whichever comes first; nothing else is cut.
pub proof fn lemma_names_end(name: Seq<u8>)
    ensures
        nul_name(name).is_prefix_of(name),
        !nul_name(name).contains(0u8),
        nul_name(name).len() < name.len() ==> name[nul_name(name).len() as int] == 0,
        ksym_name(name).is_prefix_of(name),
        !ksym_name(name).contains(0u8),
        !ksym_name(name).contains(0x2bu8),
        ksym_name(name).len() < name.len() ==> name[ksym_name(name).len() as int] == 0
            || name[ksym_name(name).len() as int] == 0x2b,
{
    bytes::lemma_index_of(name, 0);
    let n = nul_name(name);
    bytes::lemma_index_of(n, 0x2b);
    assert forall|i: int| 0 <= i < n.len() implies n[i] != 0 by {
        assert(n[i] == name[i]);
    }
    let k = ksym_name(name);
    assert forall|i: int| 0 <= i < k.len() implies k[i] != 0 && k[i] != 0x2b by {
        assert(k[i] == n[i]);
    }
    assert(n =~= name.subrange(0, n.len() as int));
    assert(k =~= name.subrange(0, k.len() as int));
}

/// The first name of an id is the one that it keeps, and no other id is touched.
pub proof fn lemma_first_name_stays(m: Map<u32, Seq<u8>>, id: u32, a: Seq<u8>, b: Seq<u8>)
    ensures
        first_kept(m, id, a).dom().contains(id),
        !m.dom().contains(id) ==> first_kept(m, id, a)[id] == a,
        m.dom().contains(id) ==> first_kept(m, id, a)[id] == m[id],
        first_kept(first_kept(m, id, a), id, b) == first_kept(m, id, a),
        forall|other: u32|
            other != id ==> (#[trigger] first_kept(m, id, a).dom().contains(other)
                <==> m.dom().contains(other)) && (m.dom().contains(other) ==> first_kept(
                m,
                id,
                a,
            )[other] == m[other]),
{
}

/// The Python frames of a sample stand in the order of their ids: where all are known
/// each has its name, and one that is not known is passed over.
#[verifier::spinoff_prover]
#[verifier::rlimit(40)]
pub proof fn lemma_known_names(m: Map<u32, Seq<u8>>, ids: Seq<u32>, n: nat)
    requires
        n <= ids.len(),
    ensures
        (forall|i: int| 0 <= i < n ==> #[trigger] m.dom().contains(ids[i])) ==> known_names(
            m,
            ids,
            n,
        ) == Seq::new(n, |i: int| m[ids[i]]),
        forall|k: int|
            0 <= k < n && !#[trigger] m.dom().contains(ids[k]) ==> known_names(m, ids, n)
                == known_names(m, ids.remove(k), (n - 1) as nat),
    decreases n,
{
    if n > 0 {
        let before = (n - 1) as nat;
        lemma_known_names(m, ids, before);
        if forall|i: int| 0 <= i < n ==> #[trigger] m.dom().contains(ids[i]) {
            assert(m.dom().contains(ids[n - 1]));
            assert(known_names(m, ids, n) =~= Seq::new(n, |i: int| m[ids[i]]));
        }
        assert forall|k: int| 0 <= k < n && !#[trigger] m.dom().contains(ids[k]) implies known_names(
            m,
            ids,
            n,
        ) == known_names(m, ids.remove(k), before) by {
            let rest = ids.remove(k);
            if k == n - 1 {
                lemma_names_of_prefix(m, ids, rest, before);
            } else {
                assert(known_names(m, ids, before) == known_names(m, rest, (n - 2) as nat));
                assert(rest[n - 2] == ids[n - 1]);
            }
        }
    } else {
        assert(known_names(m, ids, 0) =~= Seq::new(0, |i: int| m[ids[i]]));
    }
}

proof fn lemma_names_of_prefix(m: Map<u32, Seq<u8>>, a: Seq<u32>, b: Seq<u32>, n: nat)
    requires
        n <= a.len(),
        n <= b.len(),
        forall|i: int| 0 <= i < n ==> a[i] == b[i],
    ensures
        known_names(m, a, n) == known_names(m, b, n),
    decreases n,
{
    if n > 0 {
        lemma_names_of_prefix(m, a, b, (n - 1) as nat);
    }
}

/// The first address that no mapping holds: it is none of 0, and before it all are held
/// or 0; where there is none, all are.
pub proof fn lemma_first_miss(pcs: Seq<u64>, found: Seq<bool>, from: nat)
    requires
        pcs.len() == found.len(),
        from <= pcs.len(),
    ensures
        match first_miss(pcs, found, from) {
            Some(k) => from <= k < pcs.len() && pcs[k as int] != 0 && !found[k as int]
                && forall|i: int| from <= i < k ==> #[trigger] pcs[i] == 0 || found[i],
            None => forall|i: int| from <= i < pcs.len() ==> #[trigger] pcs[i] == 0 || found[i],
        },
    decreases pcs.len() - from,
{
    if from < pcs.len() && !(pcs[from as int] != 0 && !found[from as int]) {
        lemma_first_miss(pcs, found, from + 1);
    }
}

/// A snapshot of the stack gives back the words that were pushed: the one that stands `i`
/// words above the stack pointer, as far as whole words were copied, and nothing below
/// the stack pointer or beyond what was copied.
pub proof fn lemma_snapshot_read_back(words: Seq<u64>, rest: Seq<u8>, sp: u64, len: nat, addr: u64)
    requires
        len <= bytes::words64(words).len() + rest.len(),
    ensures
        addr < sp ==> snapshot_value(bytes::words64(words) + rest, sp, len, addr) is None,
        addr >= sp && addr - sp + 8 > len ==> snapshot_value(
            bytes::words64(words) + rest,
            sp,
            len,
            addr,
        ) is None,
        forall|i: int|
            0 <= i < words.len() && addr == sp + 8 * i && 8 * i + 8 <= len ==> snapshot_value(
                bytes::words64(words) + rest,
                sp,
                len,
                addr,
            ) == Some(#[trigger] words[i]),
{
    let w = bytes::words64(words);
    bytes::lemma_words64_read_back(words);
    bytes::lemma_append(w, rest);
    assert forall|i: int|
        0 <= i < words.len() && addr == sp + 8 * i && 8 * i + 8 <= len implies snapshot_value(
        w + rest,
        sp,
        len,
        addr,
    ) == Some(#[trigger] words[i]) by {
        assert((w + rest).subrange(8 * i, 8 * i + 8) == w.subrange(8 * i, 8 * i + 8));
        assert(bytes::le_u64(w, 8 * i) == words[i]);
    }
}

/// The stack that is taken is one of those that were walked, and never shorter than the
/// frame pointers' one: without a snapshot it is that one, and another is taken where it
/// is longer, Go's before the other.
pub proof fn lemma_stack_is_no_shorter(
    stack_len: u32,
    fp: Seq<u64>,
    go: Option<Seq<u64>>,
    dwarf: Option<Seq<u64>>,
)
    ensures
        ({
            let s = chosen_stack(stack_len, fp, go, dwarf);
            &&& s == fp || go == Some(s) || dwarf == Some(s)
            &&& s.len() >= fp.len()
            &&& s != fp ==> s.len() > fp.len() && stack_len > 0
            &&& stack_len > 0 && go is Some && go->0.len() > fp.len() ==> s == go->0
            &&& stack_len > 0 && dwarf is Some && dwarf->0.len() > fp.len() ==> s.len()
                > fp.len()
        }),
{
}

/// A request is answered after the last records were emitted and what the off-CPU
/// sequence holds was committed, a stop also after the session ended; each request is
/// answered once, and no other.
#[verifier::spinoff_prover]
#[verifier::rlimit(40)]
pub proof fn lemma_answered_last(flush: bool, stop: bool, i: int)
    requires
        0 <= i < ack_actions(flush, stop).len(),
    ensures
        ({
            let a = ack_actions(flush, stop);
            &&& flush <==> a.contains(AckAction::FlushDone)
            &&& stop <==> a.contains(AckAction::StopDone)
            &&& a[i] == AckAction::FlushDone || a[i] == AckAction::StopDone ==> exists|j: int, k: int|
                0 <= j < k < i && #[trigger] a[j] == AckAction::Consume && #[trigger] a[k]
                    == AckAction::FlushOffcpu
            &&& a[i] == AckAction::StopDone ==> i == a.len() - 1 && exists|j: int|
                0 <= j < i && #[trigger] a[j] == AckAction::Deactivate
            &&& a[i] == AckAction::Deactivate ==> stop && !a.skip(i).contains(AckAction::Consume)
                && !a.skip(i).contains(AckAction::FlushOffcpu)
        }),
{
    let a = ack_actions(flush, stop);
    if flush {
        assert(a[0] == AckAction::Consume);
        assert(a[1] == AckAction::FlushOffcpu);
        assert(a[2] == AckAction::FlushDone);
    }
    if stop {
        let n = a.len();
        assert(a[n - 4] == AckAction::Consume);
        assert(a[n - 3] == AckAction::FlushOffcpu);
        assert(a[n - 2] == AckAction::Deactivate);
        assert(a[n - 1] == AckAction::StopDone);
        assert(a.skip(n - 2) =~= seq![AckAction::Deactivate, AckAction::StopDone]);
    }
}

/// What is counted of a sample: one more sample and the thread's own cycles; of one off
/// the CPU, one more of those and the time, as far as the count can hold it.
pub proof fn lemma_counted(c: CaptureView, rec: SismoSampleRec, other: u32)
    requires
        rec.wf(),
        c.samples < u64::MAX,
        c.offcpu_samples < u64::MAX,
    ensures
        counted(c, rec).samples == c.samples + 1,
        counted(c, rec).acc.dom().contains(rec.hdr.tid),
        counted(c, rec).acc[rec.hdr.tid] == rec.counters@[0],
        other != rec.hdr.tid ==> (counted(c, rec).acc.dom().contains(other)
            <==> c.acc.dom().contains(other)) && counted(c, rec).acc[other] == c.acc[other],
        counted(c, rec).offcpu_samples == c.offcpu_samples,
        counted(c, rec).offcpu_ns == c.offcpu_ns,
        counted_offcpu(c, rec).offcpu_samples == c.offcpu_samples + 1,
        c.offcpu_ns + rec.data_addr <= u64::MAX ==> counted_offcpu(c, rec).offcpu_ns
            == c.offcpu_ns + rec.data_addr,
        c.offcpu_ns + rec.data_addr > u64::MAX ==> counted_offcpu(c, rec).offcpu_ns == u64::MAX,
        counted_offcpu(c, rec).samples == c.samples,
        counted_offcpu(c, rec).acc == c.acc,
{
}

/// When the regions are read again: never for an address above user space, at once where
/// they were never read, and for one that they do not hold once they are older than a
/// tenth of a second; one that they hold does not have them read again.
pub proof fn lemma_regions_read_again(r: RegionCache, addr: u64, now_ns: u64)
    requires
        now_ns >= r.last_parse_ns,
    ensures
        addr >= 0x8000_0000_0000 ==> !r.needs_parse(addr, now_ns),
        addr < 0x8000_0000_0000 && r.regions is None ==> r.needs_parse(addr, now_ns),
        region_label(r.regions, addr) is Some ==> !r.needs_parse(addr, now_ns),
        addr < 0x8000_0000_0000 && region_label(r.regions, addr) is None && now_ns
            - r.last_parse_ns > 100_000_000 ==> r.needs_parse(addr, now_ns),
        r.regions is Some && now_ns - r.last_parse_ns <= 100_000_000 ==> !r.needs_parse(
            addr,
            now_ns,
        ),
{
}

/// Whether `v` defines the mapping `d` with the build id of id `build_id`.
pub open spec fn redefines(v: FieldValue, d: interner::MappingDef, build_id: u64) -> bool {
    exists|m: Seq<u8>|
        v == FieldValue::Len(m) && #[trigger] told::is_mapping(m, d) && wire::under(m, 2)
            == wire::one(build_id)
}

/// How many of the first `n` mappings have the image base `base`.
pub open spec fn mapped_at(defs: Seq<interner::MappingDef>, base: u64, n: nat) -> nat
    decreases n,
{
    if n == 0 {
        0
    } else {
        mapped_at(defs, base, (n - 1) as nat) + if defs[n - 1].base_avma == base {
            1nat
        } else {
            0nat
        }
    }
}

#[verifier::spinoff_prover]
#[verifier::rlimit(40)]
proof fn lemma_redefinitions_read_back(
    defs: Seq<interner::MappingDef>,
    base: u64,
    build_id: u64,
    n: nat,
)
    requires
        n <= defs.len(),
        build_id > 0,
    ensures
        ({
            let o = interner::redefinitions(defs, base, build_id, n);
            let vs = wire::under(o, 19);
            &&& wire::complete(o)
            &&& vs.len() == mapped_at(defs, base, n)
            &&& forall|i: int|
                0 <= i < n && (#[trigger] defs[i]).base_avma == base ==> redefines(
                    vs[mapped_at(defs, base, i as nat) as int],
                    defs[i],
                    build_id,
                ) && mapped_at(defs, base, i as nat) < mapped_at(defs, base, n)
        }),
    decreases n,
{
    if n == 0 {
        wire::lemma_under_empty();
    } else {
        let before = interner::redefinitions(defs, base, build_id, (n - 1) as nat);
        let d = defs[n - 1];
        lemma_redefinitions_read_back(defs, base, build_id, (n - 1) as nat);
        if d.base_avma == base {
            let last = interner::mapping_message(d, build_id);
            told::lemma_mapping_read_back(d, build_id);
            wire::lemma_join(before, last);
            let m = choose|m: Seq<u8>|
                #[trigger] wire::one_text(m) == wire::under(last, 19) && told::is_mapping(m, d)
                    && wire::under(m, 2) == wire::one_unless_zero(build_id);
            let vs = wire::under(before + last, 19);
            assert(vs == wire::under(before, 19) + wire::one_text(m));
            assert(vs[mapped_at(defs, base, (n - 1) as nat) as int] == FieldValue::Len(m));
            assert(redefines(vs[mapped_at(defs, base, (n - 1) as nat) as int], d, build_id));
            assert forall|i: int| 0 <= i < n && (#[trigger] defs[i]).base_avma == base implies redefines(
                vs[mapped_at(defs, base, i as nat) as int],
                defs[i],
                build_id,
            ) && mapped_at(defs, base, i as nat) < mapped_at(defs, base, n) by {
                if i < n - 1 {
                    let k = mapped_at(defs, base, i as nat) as int;
                    assert(vs[k] == wire::under(before, 19)[k]);
                }
            }
        }
    }
}

/// What the packet says that defines a module's mappings again, read back: it goes on
/// from what was interned before, tells the build id where it is new, and holds one
/// definition for each mapping of the module and for no other, as the mapping was, with
/// the id of that build id.
#[verifier::spinoff_prover]
#[verifier::rlimit(40)]
pub proof fn lemma_module_packet_read_back(st: InternState, base: u64, id: Seq<u8>)
    requires
        st.wf(),
        st.room() >= 1,
        module_packet(st, base, id).len() < 0x8_0000_0000,
    ensures
        ({
            let after = interner::build_id_step(st, id).state;
            exists|interned: Seq<u8>, iid: u64|
                {
                    let vs = wire::under(interned, 19);
                    &&& wire::under(module_packet(st, base, id), 13) == wire::one(2)
                    &&& wire::under(module_packet(st, base, id), 12) == #[trigger] wire::one_text(
                        interned,
                    )
                    &&& 1 <= iid <= after.build_ids.len()
                    &&& after.build_ids[iid - 1] == id
                    &&& after.build_ids.len() == st.build_ids.len() + wire::under(interned, 16).len()
                    &&& vs.len() == mapped_at(st.defs, base, st.defs.len())
                    &&& forall|i: int|
                        0 <= i < st.defs.len() && (#[trigger] st.defs[i]).base_avma == base
                            ==> redefines(
                            vs[mapped_at(st.defs, base, i as nat) as int],
                            st.defs[i],
                            iid,
                        )
                    &&& #[trigger] wire::one(iid).len() == 1
                }
        }),
{
    let b = interner::build_id_step(st, id);
    let re = interner::redefinitions(st.defs, base, b.iid, st.defs.len());
    let interned = b.out + re;
    let flags = wire::varint_field(13, 2);
    let data = wire::len_field(12, interned);
    assert(module_packet(st, base, id) == flags + data);
    assert(b.out.len() <= interned.len());
    assert(interned.len() <= data.len());
    told::lemma_build_id_is_told(st, id);
    lemma_redefinitions_read_back(st.defs, base, b.iid, st.defs.len());
    reveal(told::tells);
    wire::lemma_join(b.out, re);
    wire::lemma_under_varint(13, 2);
    wire::lemma_under_len(12, interned);
    wire::lemma_join(flags, data);
    assert(wire::under(flags + data, 13) =~= wire::one(2));
    assert(wire::under(flags + data, 12) =~= wire::one_text(interned));
    assert(wire::under(b.out, 19).len() == 0);
    assert(wire::under(interned, 19) =~= wire::under(re, 19));
    lemma_redefines_no_name(st.defs, base, b.iid, st.defs.len());
    assert(wire::under(interned, 16) =~= wire::under(b.out, 16));
    assert(wire::one(b.iid).len() == 1);
}

proof fn lemma_redefines_no_name(
    defs: Seq<interner::MappingDef>,
    base: u64,
    build_id: u64,
    n: nat,
)
    requires
        n <= defs.len(),
    ensures
        wire::complete(interner::redefinitions(defs, base, build_id, n)),
        wire::under(interner::redefinitions(defs, base, build_id, n), 16).len() == 0,
    decreases n,
{
    if n == 0 {
        wire::lemma_under_empty();
    } else {
        let before = interner::redefinitions(defs, base, build_id, (n - 1) as nat);
        lemma_redefines_no_name(defs, base, build_id, (n - 1) as nat);
        if defs[n - 1].base_avma == base {
            told::lemma_mapping_read_back(defs[n - 1], build_id);
            wire::lemma_join(before, interner::mapping_message(defs[n - 1], build_id));
        }
    }
}

/// What the off-CPU sequence starts with, read back: its samples are weighted in
/// nanoseconds off the CPU, are of threads, and are stamped by the monotonic clock; what
/// was interned before is forgotten.
pub proof fn lemma_offcpu_defaults_read_back()
    requires
        offcpu_defaults().len() < 0x8_0000_0000,
    ensures
        ({
            let p = offcpu_defaults();
            &&& wire::under(p, 13) == wire::one(1)
            &&& exists|d: Seq<u8>, s: Seq<u8>, t: Seq<u8>|
                {
                    &&& #[trigger] wire::one_text(d) == wire::under(p, 59)
                    &&& wire::under(d, 58) == wire::one(3)
                    &&& #[trigger] wire::one_text(s) == wire::under(d, 12)
                    &&& wire::under(s, 5) == wire::one(2)
                    &&& #[trigger] wire::one_text(t) == wire::under(s, 1)
                    &&& wire::under(t, 10) == wire::one_text("off-cpu-ns".spec_bytes())
                    &&& wire::under(s, 4).len() == 0
                }
        }),
{
    reveal(offcpu_defaults);
    packets::lemma_perf_defaults_read_back("off-cpu-ns".spec_bytes(), 0, Seq::empty(), 2, 3, 1);
}

/// The defaults of a sequence come before its first packet, and are not repeated.
pub proof fn lemma_defaults_come_first(defaults: Seq<u8>, packet: Seq<u8>)
    ensures
        after_defaults(true, defaults, packet).len() == 2,
        after_defaults(true, defaults, packet)[0] == defaults,
        after_defaults(true, defaults, packet)[1] == packet,
        after_defaults(false, defaults, packet).len() == 1,
        after_defaults(false, defaults, packet)[0] == packet,
{
}

} // verus!
