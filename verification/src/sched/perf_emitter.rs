//! Emitting stack samples: the addresses of a sample are looked up in the target's
//! modules, interned, and written as a perf sample that is weighted by time.

use crate::bytes::low_u32;
use crate::cpu::callstack::{append_reversed, Walk};
use crate::cpu::interner;
use crate::cpu::interner::{FrameKey, InternState, Interned, Interner};
use crate::cpu::told;
use crate::mach;
use crate::mach::{stamp_ns, TimebaseInfo};
use crate::proto::packets;
use crate::proto::packets::{write_perf_defaults_packet, write_perf_sample};
use crate::proto::wire;
use crate::proto::writer::ProtoWriter;
use crate::sorted;
use crate::sorted::{slot_of, sort_by_key, HasKey, Keyed};
use vstd::prelude::*;
use vstd::string::*;

verus! {

pub const SEQ_INCREMENTAL_STATE_CLEARED: u32 = 1;

pub const SEQ_NEEDS_INCREMENTAL_STATE: u32 = 2;

pub const BUILTIN_CLOCK_MONOTONIC: u32 = 3;

pub const SAMPLE_SCOPE_THREAD: u32 = 2;

pub const TP_FIELD_PERF_SAMPLE: u32 = 66;

/// The modules are read again at most once in so many samples.
pub const RELOAD_AFTER: u64 = 512;

/// A module of the target. Its identity is all zeros where it has none.
pub struct Module {
    pub base: u64,
    pub end: u64,
    pub path: Vec<u8>,
    pub uuid: [u8; 16],
}

impl HasKey for Module {
    open spec fn key(self) -> u64 {
        self.base
    }
}

impl Keyed for Module {
    fn key_of(&self) -> (k: u64) {
        self.base
    }
}

/// A module that is loaded at `base`; it ends with its text.
pub fn module_at(base: u64, text_vmsize: u64, path: Vec<u8>, uuid: [u8; 16]) -> (m: Module)
    ensures
        m.base == base,
        m.end == vstd::wrapping::u64_specs::wrapping_add(base, text_vmsize),
        m.path == path,
        m.uuid == uuid,
{
    Module { base, end: base.wrapping_add(text_vmsize), path, uuid }
}

/// The modules by their bases.
pub fn load_modules(found: Vec<Module>) -> (mods: Vec<Module>)
    ensures
        mods@ == sorted::by_key(found@),
        sorted::ordered(mods@),
{
    proof {
        sorted::lemma_by_key(found@);
    }
    sort_by_key(found)
}

/// The module that holds `pc`: the last that is loaded at or below it, where that
/// reaches past it.
pub open spec fn holding(mods: Seq<Module>, pc: u64) -> Option<nat> {
    let k = sorted::slot(mods, pc);
    if k > 0 && pc < mods[k - 1].end {
        Some((k - 1) as nat)
    } else {
        None
    }
}

pub fn find_module(mods: &Vec<Module>, pc: u64) -> (r: Option<usize>)
    ensures
        match r {
            Some(i) => holding(mods@, pc) == Some(i as nat) && i < mods@.len(),
            None => holding(mods@, pc) is None,
        },
{
    let k: usize = slot_of(mods, pc);
    if k > 0 && pc < mods[k - 1].end {
        Some(k - 1)
    } else {
        None
    }
}

/// Of modules that do not overlap, the one that holds `pc` is found, if any does.
pub proof fn lemma_found_iff_held(mods: Seq<Module>, pc: u64, i: int)
    requires
        sorted::ordered(mods),
        0 <= i < mods.len(),
        forall|a: int, b: int|
            0 <= a < b < mods.len() ==> (#[trigger] mods[a]).end <= (#[trigger] mods[b]).base,
        mods[i].base <= pc < mods[i].end,
    ensures
        holding(mods, pc) == Some(i as nat),
{
    sorted::lemma_slot(mods, pc);
    let k = sorted::slot(mods, pc);
    assert(i < k);
    if i < k - 1 {
        assert(mods[i].end <= mods[k - 1].base);
    }
}

/// A sample that is ready to be emitted, its frames leaf first.
pub struct DecodedStack {
    pub pid: u64,
    pub tid: u64,
    pub cpu: u32,
    pub ts_ticks: u64,
    pub frames: Vec<u64>,
    pub kernel_frames: Vec<u64>,
}

/// A sample, as plain values.
#[verifier::ext_equal]
pub struct DecodedView {
    pub pid: u64,
    pub tid: u64,
    pub cpu: u32,
    pub ts_ticks: u64,
    pub frames: Seq<u64>,
    pub kernel_frames: Seq<u64>,
}

impl View for DecodedStack {
    type V = DecodedView;

    open spec fn view(&self) -> DecodedView {
        DecodedView {
            pid: self.pid,
            tid: self.tid,
            cpu: self.cpu,
            ts_ticks: self.ts_ticks,
            frames: self.frames@,
            kernel_frames: self.kernel_frames@,
        }
    }
}

/// The identity of a module, as its build id: nothing where it is all zeros.
pub open spec fn identity(uuid: Seq<u8>) -> Seq<u8> {
    if exists|i: int| 0 <= i < uuid.len() && uuid[i] != 0 {
        uuid
    } else {
        Seq::empty()
    }
}

fn identity_of(uuid: &[u8; 16]) -> (r: Vec<u8>)
    ensures
        r@ == identity(uuid@),
{
    let mut any: bool = false;
    let mut r: Vec<u8> = Vec::new();
    let mut i: usize = 0;
    while i < 16
        invariant
            i <= 16,
            any == exists|j: int| 0 <= j < i && uuid@[j] != 0,
            r@ == uuid@.take(i as int),
        decreases 16 - i,
    {
        if uuid[i] != 0 {
            any = true;
            assert(uuid@[i as int] != 0);
        }
        r.push(uuid[i]);
        i += 1;
        assert(r@ =~= uuid@.take(i as int));
    }
    assert(uuid@.take(16) =~= uuid@);
    if any {
        r
    } else {
        let none: Vec<u8> = Vec::new();
        assert(none@ =~= identity(uuid@));
        none
    }
}

/// Interning one kernel address; 0 is passed over.
pub open spec fn kernel_frame(w: Walk, mapping_iid: u64, pc: u64) -> Walk {
    if pc == 0 {
        w
    } else {
        let f = interner::frame_step(w.state, FrameKey { mapping_iid, rel_pc: pc, name_iid: 0 });
        Walk { state: f.state, fids: w.fids.push(f.iid), out: w.out + f.out }
    }
}

pub open spec fn kernel_frames(w: Walk, mapping_iid: u64, pcs: Seq<u64>, n: nat) -> Walk
    decreases n,
{
    if n == 0 {
        w
    } else {
        kernel_frame(kernel_frames(w, mapping_iid, pcs, (n - 1) as nat), mapping_iid, pcs[n - 1])
    }
}

/// The kernel's frames, which share a mapping over all addresses.
pub open spec fn kernel_part(w: Walk, pcs: Seq<u64>) -> Walk {
    if pcs.len() == 0 {
        w
    } else {
        let m = interner::mapping_step(
            w.state,
            0,
            u64::MAX,
            0,
            0,
            "[kernel]".spec_bytes(),
            Seq::empty(),
        );
        kernel_frames(
            Walk { state: m.state, fids: w.fids, out: w.out + m.out },
            m.iid,
            pcs,
            pcs.len(),
        )
    }
}

/// Interning one user address; one that no module holds is passed over.
pub open spec fn user_frame(w: Walk, mods: Seq<Module>, pc: u64) -> Walk {
    match holding(mods, pc) {
        Some(i) => if pc == 0 {
            w
        } else {
            let d = mods[i as int];
            let m = interner::mapping_step(
                w.state,
                d.base,
                d.end,
                0,
                d.base,
                d.path@,
                identity(d.uuid@),
            );
            let f = interner::frame_step(
                m.state,
                FrameKey { mapping_iid: m.iid, rel_pc: pc, name_iid: 0 },
            );
            Walk { state: f.state, fids: w.fids.push(f.iid), out: w.out + m.out + f.out }
        },
        None => w,
    }
}

pub open spec fn user_frames(w: Walk, mods: Seq<Module>, pcs: Seq<u64>, n: nat) -> Walk
    decreases n,
{
    if n == 0 {
        w
    } else {
        user_frame(user_frames(w, mods, pcs, (n - 1) as nat), mods, pcs[n - 1])
    }
}

/// Interning a sample's callstack: the kernel's frames, then the user's, both leaf
/// first, turned round so that the root comes first. A callstack of no frames is 0.
pub open spec fn stack_step(st: InternState, mods: Seq<Module>, s: DecodedView) -> Interned {
    let start = Walk { state: st, fids: Seq::empty(), out: Seq::empty() };
    let k = kernel_part(start, s.kernel_frames);
    let u = user_frames(k, mods, s.frames, s.frames.len());
    if u.fids.len() == 0 {
        Interned { state: u.state, iid: 0, out: u.out }
    } else {
        let c = interner::callstack_step(u.state, u.fids.reverse());
        Interned { state: c.state, iid: c.iid, out: u.out + c.out }
    }
}

/// The most ids that a sample can take from a table.
pub open spec fn stack_cost(s: DecodedView) -> nat {
    2 + s.kernel_frames.len() + 2 * s.frames.len()
}

/// The packet of a sample.
pub open spec fn sample_packet(ts_ns: u64, s: DecodedView, i: Interned, weight_ns: u64) -> Seq<u8> {
    wire::varint_field(8, ts_ns) + wire::varint_field(13, SEQ_NEEDS_INCREMENTAL_STATE as u64)
        + wire::nonempty_field(12, i.out) + wire::sub_message(
        TP_FIELD_PERF_SAMPLE,
        packets::perf_sample_body(
            s.cpu,
            (s.pid % 0x1_0000_0000) as u32,
            (s.tid % 0x1_0000_0000) as u32,
            i.iid,
            weight_ns,
            Seq::empty(),
            0,
            None,
        ),
    )
}

/// The packet that a sequence starts with.
pub open spec fn defaults_packet(timebase_name: Seq<u8>) -> Seq<u8> {
    packets::perf_defaults_packet(
        timebase_name,
        0,
        Seq::empty(),
        SAMPLE_SCOPE_THREAD,
        BUILTIN_CLOCK_MONOTONIC,
        SEQ_INCREMENTAL_STATE_CLEARED,
    )
}

/// Emits samples on one sequence.
pub struct PerfEmitter {
    pub timebase_name: Vec<u8>,
    pub modules: Vec<Module>,
    pub interner: Interner,
    pub need_defaults: bool,
    pub tb: TimebaseInfo,
    /// Samples since the modules were read.
    pub since_reload: u64,
}

impl PerfEmitter {
    pub open spec fn wf(self) -> bool {
        self.interner@.wf() && self.tb.wf()
    }

    /// The tables that the next sample is interned into.
    pub open spec fn tables(self) -> InternState {
        if self.need_defaults {
            InternState::new()
        } else {
            self.interner@
        }
    }

    pub fn new(timebase_name: &[u8], modules: Vec<Module>, tb: TimebaseInfo) -> (e: Self)
        requires
            tb.wf(),
        ensures
            e.wf(),
            e.timebase_name@ == timebase_name@,
            e.modules == modules,
            e.interner@ == InternState::new(),
            e.need_defaults,
            e.tb == tb,
            e.since_reload == 0,
    {
        PerfEmitter {
            timebase_name: vstd::slice::slice_to_vec(timebase_name),
            modules,
            interner: Interner::new(),
            need_defaults: true,
            tb,
            since_reload: 0,
        }
    }

    /// Start a new sequence with the next sample.
    pub fn mark_needs_defaults(&mut self)
        ensures
            *final(self) == (PerfEmitter { need_defaults: true, ..*old(self) }),
    {
        self.need_defaults = true;
    }

    /// Whether a frame that is not 0 has no module.
    pub open spec fn misses(self, frames: Seq<u64>) -> bool {
        exists|i: int|
            0 <= i < frames.len() && frames[i] != 0 && holding(self.modules@, #[trigger] frames[i])
                is None
    }

    /// Count a sample, and say whether the modules are to be read again first: a
    /// frame has no module, and they were not read for a while.
    pub fn wants_reload(&mut self, frames: &Vec<u64>) -> (r: bool)
        ensures
            ({
                let n = if old(self).since_reload < u64::MAX {
                    old(self).since_reload + 1
                } else {
                    u64::MAX as int
                };
                &&& r == (n > RELOAD_AFTER && old(self).misses(frames@))
                &&& *final(self) == (PerfEmitter {
                    since_reload: if r {
                        0
                    } else {
                        n as u64
                    },
                    ..*old(self)
                })
            }),
    {
        if self.since_reload < u64::MAX {
            self.since_reload = self.since_reload + 1;
        }
        if self.since_reload > RELOAD_AFTER && self.misses_any(frames) {
            self.since_reload = 0;
            return true;
        }
        false
    }

    fn misses_any(&self, frames: &Vec<u64>) -> (r: bool)
        ensures
            r == self.misses(frames@),
    {
        let mut i: usize = 0;
        while i < frames.len()
            invariant
                i <= frames@.len(),
                forall|j: int|
                    0 <= j < i ==> frames@[j] == 0 || holding(
                        self.modules@,
                        #[trigger] frames@[j],
                    ) is Some,
            decreases frames@.len() - i,
        {
            let pc: u64 = frames[i];
            if pc != 0 && find_module(&self.modules, pc).is_none() {
                assert(holding(self.modules@, frames@[i as int]) is None);
                return true;
            }
            i += 1;
        }
        false
    }

    /// Take the modules that were read again.
    pub fn set_modules(&mut self, modules: Vec<Module>)
        ensures
            *final(self) == (PerfEmitter { modules, ..*old(self) }),
    {
        self.modules = modules;
    }

    /// Whether the tables have room for a sample.
    pub open spec fn room_for(self, s: DecodedView) -> bool {
        self.tables().room() >= stack_cost(s)
    }

    pub fn has_room(&self, s: &DecodedStack) -> (r: bool)
        requires
            s@.frames.len() <= 256,
            s@.kernel_frames.len() <= 256,
        ensures
            r == self.room_for(s@),
    {
        let cost: u64 = 2 + s.kernel_frames.len() as u64 + 2 * s.frames.len() as u64;
        if self.need_defaults {
            true
        } else {
            self.interner.has_room(cost)
        }
    }

    /// Intern the kernel's frames.
    fn intern_kernel(&mut self, pcs: &Vec<u64>, fids: &mut Vec<u64>, idw: &mut ProtoWriter)
        requires
            old(self).wf(),
            old(self).interner@.room() >= 1 + pcs@.len(),
        ensures
            final(self).wf(),
            *final(self) == (PerfEmitter { interner: final(self).interner, ..*old(self) }),
            (Walk { state: final(self).interner@, fids: final(fids)@, out: final(idw)@ })
                == kernel_part(
                Walk { state: old(self).interner@, fids: old(fids)@, out: old(idw)@ },
                pcs@,
            ),
            final(self).interner@.room() >= old(self).interner@.room() - 1 - pcs@.len(),
    {
        if pcs.len() == 0 {
            return;
        }
        let ghost room = self.interner@.room();
        let none: Vec<u8> = Vec::new();
        assert(none@ =~= Seq::empty());
        let kmap: u64 = self.interner.intern_mapping(
            0,
            u64::MAX,
            0,
            0,
            "[kernel]".as_bytes(),
            none.as_slice(),
            idw,
        );
        let ghost w = Walk { state: self.interner@, fids: fids@, out: idw@ };
        let mut i: usize = 0;
        while i < pcs.len()
            invariant
                i <= pcs@.len(),
                room >= 1 + pcs@.len(),
                self.wf(),
                *self == (PerfEmitter { interner: self.interner, ..*old(self) }),
                self.interner@.room() >= room - 1 - i,
                (Walk { state: self.interner@, fids: fids@, out: idw@ }) == kernel_frames(
                    w,
                    kmap,
                    pcs@,
                    i as nat,
                ),
            decreases pcs@.len() - i,
        {
            let pc: u64 = pcs[i];
            if pc != 0 {
                let f: u64 = self.interner.intern_frame(
                    FrameKey { mapping_iid: kmap, rel_pc: pc, name_iid: 0 },
                    idw,
                );
                fids.push(f);
            }
            i += 1;
        }
    }

    /// Intern the user's frames.
    fn intern_user(&mut self, pcs: &Vec<u64>, fids: &mut Vec<u64>, idw: &mut ProtoWriter)
        requires
            old(self).wf(),
            old(self).interner@.room() >= 2 * pcs@.len(),
        ensures
            final(self).wf(),
            *final(self) == (PerfEmitter { interner: final(self).interner, ..*old(self) }),
            (Walk { state: final(self).interner@, fids: final(fids)@, out: final(idw)@ })
                == user_frames(
                Walk { state: old(self).interner@, fids: old(fids)@, out: old(idw)@ },
                old(self).modules@,
                pcs@,
                pcs@.len(),
            ),
            final(self).interner@.room() >= old(self).interner@.room() - 2 * pcs@.len(),
    {
        let ghost room = self.interner@.room();
        let ghost w = Walk { state: self.interner@, fids: fids@, out: idw@ };
        let mut i: usize = 0;
        while i < pcs.len()
            invariant
                i <= pcs@.len(),
                room >= 2 * pcs@.len(),
                self.wf(),
                *self == (PerfEmitter { interner: self.interner, ..*old(self) }),
                self.interner@.room() >= room - 2 * i,
                (Walk { state: self.interner@, fids: fids@, out: idw@ }) == user_frames(
                    w,
                    old(self).modules@,
                    pcs@,
                    i as nat,
                ),
            decreases pcs@.len() - i,
        {
            let pc: u64 = pcs[i];
            if let Some(k) = find_module(&self.modules, pc) {
                if pc != 0 {
                    let m = &self.modules[k];
                    let id = identity_of(&m.uuid);
                    let mapping_iid: u64 = self.interner.intern_mapping(
                        m.base,
                        m.end,
                        0,
                        m.base,
                        m.path.as_slice(),
                        id.as_slice(),
                        idw,
                    );
                    let f: u64 = self.interner.intern_frame(
                        FrameKey { mapping_iid, rel_pc: pc, name_iid: 0 },
                        idw,
                    );
                    fids.push(f);
                }
            }
            i += 1;
        }
    }

    /// Intern a sample's callstack.
    fn intern_stack(&mut self, s: &DecodedStack, idw: &mut ProtoWriter) -> (iid: u64)
        requires
            old(self).wf(),
            old(self).interner@.room() >= stack_cost(s@),
            old(idw)@.len() == 0,
        ensures
            final(self).wf(),
            *final(self) == (PerfEmitter { interner: final(self).interner, ..*old(self) }),
            ({
                let i = stack_step(old(self).interner@, old(self).modules@, s@);
                &&& final(self).interner@ == i.state
                &&& iid == i.iid
                &&& final(idw)@ == i.out
            }),
    {
        let mut fids: Vec<u64> = Vec::new();
        assert(idw@ =~= Seq::empty());
        assert(fids@ =~= Seq::empty());
        self.intern_kernel(&s.kernel_frames, &mut fids, idw);
        self.intern_user(&s.frames, &mut fids, idw);
        if fids.len() == 0 {
            return 0;
        }
        let mut root_first: Vec<u64> = Vec::new();
        append_reversed(&mut root_first, &fids);
        assert(root_first@ =~= fids@.reverse());
        self.interner.intern_callstack_ids(root_first.as_slice(), idw)
    }

    /// Start a sequence, where that is due: its first packet.
    fn start_sequence(&mut self) -> (r: Option<Vec<u8>>)
        requires
            old(self).wf(),
        ensures
            final(self).wf(),
            final(self).interner@ == old(self).tables(),
            *final(self) == (PerfEmitter {
                interner: final(self).interner,
                need_defaults: false,
                ..*old(self)
            }),
            r is Some <==> old(self).need_defaults,
            r matches Some(p) ==> p@ == defaults_packet(old(self).timebase_name@),
    {
        if !self.need_defaults {
            return None;
        }
        self.interner.reset();
        self.need_defaults = false;
        let mut w = ProtoWriter::new();
        write_perf_defaults_packet(
            &mut w,
            self.timebase_name.as_slice(),
            0,
            &[],
            SAMPLE_SCOPE_THREAD,
            BUILTIN_CLOCK_MONOTONIC,
            SEQ_INCREMENTAL_STATE_CLEARED,
        );
        assert(w@ =~= defaults_packet(old(self).timebase_name@)) by {
            assert(packets::contents(Seq::<&[u8]>::empty()) =~= Seq::empty());
        }
        Some(w.into_bytes())
    }

    /// The packets of a sample with the weight `weight_ns`: the defaults, where a
    /// sequence starts with it, and the sample.
    pub fn emit(&mut self, s: &DecodedStack, weight_ns: u64) -> (r: Vec<Vec<u8>>)
        requires
            old(self).wf(),
            old(self).room_for(s@),
        ensures
            final(self).wf(),
            ({
                let i = stack_step(old(self).tables(), old(self).modules@, s@);
                &&& final(self).interner@ == i.state
                &&& crate::intern::rows(r@) == emitted(
                    old(self).need_defaults,
                    old(self).timebase_name@,
                    sample_packet(mach::stamp(s.ts_ticks, old(self).tb), s@, i, weight_ns),
                )
            }),
            *final(self) == (PerfEmitter {
                interner: final(self).interner,
                need_defaults: false,
                ..*old(self)
            }),
    {
        let mut r: Vec<Vec<u8>> = Vec::new();
        if let Some(p) = self.start_sequence() {
            r.push(p);
        }
        let mut idw = ProtoWriter::new();
        let cs_iid: u64 = self.intern_stack(s, &mut idw);
        let ghost i = stack_step(old(self).tables(), old(self).modules@, s@);
        let ts_ns: u64 = stamp_ns(s.ts_ticks, self.tb);
        let out = write_sample(ts_ns, s, cs_iid, idw.bytes(), weight_ns);
        assert(out@ =~= sample_packet(ts_ns, s@, i, weight_ns));
        let ghost before = crate::intern::rows(r@);
        let ghost packet = out@;
        r.push(out);
        assert(crate::intern::rows(r@) =~= before.push(packet));
        assert(crate::intern::rows(r@) =~= emitted(
            old(self).need_defaults,
            old(self).timebase_name@,
            packet,
        ));
        r
    }
}

/// The packets of a sample.
pub open spec fn emitted(need_defaults: bool, timebase_name: Seq<u8>, packet: Seq<u8>) -> Seq<
    Seq<u8>,
> {
    if need_defaults {
        seq![defaults_packet(timebase_name), packet]
    } else {
        seq![packet]
    }
}

fn write_sample(ts_ns: u64, s: &DecodedStack, cs_iid: u64, idw: &[u8], weight_ns: u64) -> (r: Vec<
    u8,
>)
    ensures
        forall|i: Interned|
            i.iid == cs_iid && i.out == idw@ ==> r@ == #[trigger] sample_packet(
                ts_ns,
                s@,
                i,
                weight_ns,
            ),
{
    let mut tp = ProtoWriter::new();
    tp.write_uint64(8, ts_ns);
    tp.write_uint32(13, SEQ_NEEDS_INCREMENTAL_STATE);
    tp.write_nonempty(12, idw);
    write_perf_sample(
        &mut tp,
        TP_FIELD_PERF_SAMPLE,
        s.cpu,
        low_u32(s.pid),
        low_u32(s.tid),
        cs_iid,
        weight_ns,
        &[],
        0,
        None,
    );
    proof {
        assert forall|i: Interned| i.iid == cs_iid && i.out == idw@ implies tp@ == #[trigger]
        sample_packet(ts_ns, s@, i, weight_ns) by {
            assert(tp@ =~= sample_packet(ts_ns, s@, i, weight_ns));
        }
    }
    tp.into_bytes()
}

// ---- what the packets say ----------------------------------------------------

/// A frame of a sample: its address, and where the mapping that it lies in starts.
pub struct Spot {
    pub pc: u64,
    pub start: u64,
}

/// Whether a frame id stands for a spot.
pub open spec fn stands_for(st: InternState, fid: u64, spot: Spot) -> bool {
    let f = st.frames[fid - 1];
    &&& 1 <= fid <= st.frames.len()
    &&& f.rel_pc == spot.pc
    &&& f.name_iid == 0
    &&& 1 <= f.mapping_iid <= st.mappings.len()
    &&& st.mappings[f.mapping_iid - 1] == spot.start
}

/// The kernel's spots: all addresses but 0, in the mapping from 0 on.
pub open spec fn kernel_spots(pcs: Seq<u64>, n: nat) -> Seq<Spot>
    decreases n,
{
    if n == 0 {
        Seq::empty()
    } else if pcs[n - 1] == 0 {
        kernel_spots(pcs, (n - 1) as nat)
    } else {
        kernel_spots(pcs, (n - 1) as nat).push(Spot { pc: pcs[n - 1], start: 0 })
    }
}

/// The user's spots: all addresses but 0 and those that no module holds, each in the
/// module that holds it.
pub open spec fn user_spots(mods: Seq<Module>, pcs: Seq<u64>, n: nat) -> Seq<Spot>
    decreases n,
{
    if n == 0 {
        Seq::empty()
    } else {
        let before = user_spots(mods, pcs, (n - 1) as nat);
        match holding(mods, pcs[n - 1]) {
            Some(i) => if pcs[n - 1] == 0 {
                before
            } else {
                before.push(Spot { pc: pcs[n - 1], start: mods[i as int].base })
            },
            None => before,
        }
    }
}

/// Whether a callstack, read from its end, runs through these spots.
pub open spec fn shows(st: InternState, iid: u64, spots: Seq<Spot>) -> bool {
    &&& iid == 0 <==> spots.len() == 0
    &&& spots.len() > 0 ==> {
        &&& 1 <= iid <= st.callstacks.len()
        &&& st.callstacks[iid - 1].len() == spots.len()
        &&& forall|t: int|
            0 <= t < spots.len() ==> stands_for(
                st,
                st.callstacks[iid - 1][spots.len() - 1 - t],
                #[trigger] spots[t],
            )
    }
}

spec fn walked(st: InternState, w: Walk, spots: Seq<Spot>, cost: int) -> bool {
    &&& told::sound(st, w.state, w.out, cost)
    &&& w.fids.len() == spots.len()
    &&& forall|k: int| 0 <= k < spots.len() ==> stands_for(w.state, #[trigger] w.fids[k], spots[k])
}

proof fn lemma_stands_stays(a: InternState, b: InternState, fid: u64, spot: Spot)
    requires
        told::grows(a, b),
        stands_for(a, fid, spot),
    ensures
        stands_for(b, fid, spot),
{
    let f = a.frames[fid - 1];
    assert(b.frames[fid - 1] == f);
    assert(b.mappings[f.mapping_iid - 1] == a.mappings[f.mapping_iid - 1]);
}

/// The same frames, after something else was interned.
proof fn lemma_with_step(
    st: InternState,
    w: Walk,
    spots: Seq<Spot>,
    cost: int,
    step: Interned,
    more: int,
)
    requires
        walked(st, w, spots, cost),
        told::sound(w.state, step.state, step.out, more),
        st.room() >= cost + more,
    ensures
        walked(
            st,
            (Walk { state: step.state, fids: w.fids, out: w.out + step.out }),
            spots,
            cost + more,
        ),
{
    told::lemma_tells_join(st, w.state, step.state, w.out, step.out, cost, more);
    let r = Walk { state: step.state, fids: w.fids, out: w.out + step.out };
    assert forall|k: int| 0 <= k < spots.len() implies stands_for(
        r.state,
        #[trigger] r.fids[k],
        spots[k],
    ) by {
        assert(stands_for(w.state, w.fids[k], spots[k]));
        lemma_stands_stays(w.state, step.state, w.fids[k], spots[k]);
    }
}

/// One more frame, of a mapping that is known.
proof fn lemma_with_frame(
    st: InternState,
    w: Walk,
    spots: Seq<Spot>,
    cost: int,
    mapping_iid: u64,
    spot: Spot,
)
    requires
        walked(st, w, spots, cost),
        st.room() >= cost + 1,
        1 <= mapping_iid <= w.state.mappings.len(),
        w.state.mappings[mapping_iid - 1] == spot.start,
    ensures
        ({
            let f = interner::frame_step(
                w.state,
                FrameKey { mapping_iid, rel_pc: spot.pc, name_iid: 0 },
            );
            let r = Walk { state: f.state, fids: w.fids.push(f.iid), out: w.out + f.out };
            &&& walked(st, r, spots.push(spot), cost + 1)
            &&& told::grows(w.state, f.state)
        }),
{
    let key = FrameKey { mapping_iid, rel_pc: spot.pc, name_iid: 0 };
    let f = interner::frame_step(w.state, key);
    told::lemma_frame_is_told(w.state, key);
    lemma_with_step(st, w, spots, cost, f, 1);
    assert(f.state.mappings[mapping_iid - 1] == w.state.mappings[mapping_iid - 1]);
    assert(stands_for(f.state, f.iid, spot));
}

proof fn lemma_kernel_frames(
    st: InternState,
    w: Walk,
    cost: int,
    mapping_iid: u64,
    pcs: Seq<u64>,
    n: nat,
)
    requires
        walked(st, w, Seq::empty(), cost),
        n <= pcs.len(),
        st.room() >= cost + n,
        1 <= mapping_iid <= w.state.mappings.len(),
        w.state.mappings[mapping_iid - 1] == 0,
    ensures
        ({
            let r = kernel_frames(w, mapping_iid, pcs, n);
            &&& walked(st, r, kernel_spots(pcs, n), cost + n)
            &&& 1 <= mapping_iid <= r.state.mappings.len()
            &&& r.state.mappings[mapping_iid - 1] == 0
        }),
    decreases n,
{
    if n > 0 {
        let m = (n - 1) as nat;
        lemma_kernel_frames(st, w, cost, mapping_iid, pcs, m);
        let front = kernel_frames(w, mapping_iid, pcs, m);
        if pcs[n - 1] != 0 {
            lemma_with_frame(
                st,
                front,
                kernel_spots(pcs, m),
                cost + m,
                mapping_iid,
                Spot { pc: pcs[n - 1], start: 0 },
            );
        }
    }
}

proof fn lemma_user_frames(
    st: InternState,
    w: Walk,
    spots: Seq<Spot>,
    cost: int,
    mods: Seq<Module>,
    pcs: Seq<u64>,
    n: nat,
)
    requires
        walked(st, w, spots, cost),
        n <= pcs.len(),
        st.room() >= cost + 2 * n,
        user_frames(w, mods, pcs, n).out.len() < 0x8_0000_0000,
    ensures
        walked(st, user_frames(w, mods, pcs, n), spots + user_spots(mods, pcs, n), cost + 2 * n),
    decreases n,
{
    if n == 0 {
        assert(spots + user_spots(mods, pcs, n) =~= spots);
    } else {
        let m = (n - 1) as nat;
        let front = user_frames(w, mods, pcs, m);
        let shown = user_spots(mods, pcs, m);
        let pc = pcs[n - 1];
        assert(front.out.len() <= user_frame(front, mods, pc).out.len());
        lemma_user_frames(st, w, spots, cost, mods, pcs, m);
        match holding(mods, pc) {
            Some(i) => {
                if pc != 0 {
                    let d = mods[i as int];
                    let spot = Spot { pc, start: d.base };
                    let x = interner::mapping_step(
                        front.state,
                        d.base,
                        d.end,
                        0,
                        d.base,
                        d.path@,
                        identity(d.uuid@),
                    );
                    told::lemma_mapping_is_told(
                        front.state,
                        d.base,
                        d.end,
                        0,
                        d.base,
                        d.path@,
                        identity(d.uuid@),
                    );
                    lemma_with_step(st, front, spots + shown, cost + 2 * m, x, 1);
                    let v = Walk { state: x.state, fids: front.fids, out: front.out + x.out };
                    lemma_with_frame(st, v, spots + shown, cost + 2 * m + 1, x.iid, spot);
                    assert((spots + shown).push(spot) =~= spots + shown.push(spot));
                }
            },
            None => {},
        }
    }
}

proof fn lemma_user_out_grows(w: Walk, mods: Seq<Module>, pcs: Seq<u64>, n: nat)
    ensures
        w.out.len() <= user_frames(w, mods, pcs, n).out.len(),
    decreases n,
{
    if n > 0 {
        lemma_user_out_grows(w, mods, pcs, (n - 1) as nat);
    }
}

proof fn lemma_kernel_out_grows(w: Walk, mapping_iid: u64, pcs: Seq<u64>, n: nat)
    ensures
        w.out.len() <= kernel_frames(w, mapping_iid, pcs, n).out.len(),
    decreases n,
{
    if n > 0 {
        lemma_kernel_out_grows(w, mapping_iid, pcs, (n - 1) as nat);
    }
}

/// The law of a sample's callstack: read from its end, it runs from the innermost frame
/// outward, through the kernel and then through the user's code. It has a frame for each
/// address that is shown, in the module that holds it, and no other; what they refer to
/// has been told.
pub proof fn lemma_stack_runs_outward(st: InternState, mods: Seq<Module>, s: DecodedView)
    requires
        st.wf(),
        st.room() >= stack_cost(s),
        stack_step(st, mods, s).out.len() < 0x8_0000_0000,
    ensures
        ({
            let r = stack_step(st, mods, s);
            &&& told::tells(st, r.state, r.out)
            &&& shows(
                r.state,
                r.iid,
                kernel_spots(s.kernel_frames, s.kernel_frames.len()) + user_spots(
                    mods,
                    s.frames,
                    s.frames.len(),
                ),
            )
        }),
{
    let start = Walk { state: st, fids: Seq::empty(), out: Seq::empty() };
    let none = Seq::<Spot>::empty();
    let kp = s.kernel_frames;
    let k = kernel_part(start, kp);
    let ks = kernel_spots(kp, kp.len());
    let u = user_frames(k, mods, s.frames, s.frames.len());
    let us = user_spots(mods, s.frames, s.frames.len());
    let r = stack_step(st, mods, s);
    lemma_user_out_grows(k, mods, s.frames, s.frames.len());
    told::lemma_tells_nothing(st);
    assert(walked(st, start, none, 0));
    let cost = 1 + kp.len();
    if kp.len() > 0 {
        let m = interner::mapping_step(
            st,
            0,
            u64::MAX,
            0,
            0,
            "[kernel]".spec_bytes(),
            Seq::empty(),
        );
        let v = Walk { state: m.state, fids: start.fids, out: start.out + m.out };
        lemma_kernel_out_grows(v, m.iid, kp, kp.len());
        told::lemma_mapping_is_told(
            st,
            0,
            u64::MAX,
            0,
            0,
            "[kernel]".spec_bytes(),
            Seq::empty(),
        );
        lemma_with_step(st, start, none, 0, m, 1);
        lemma_kernel_frames(st, v, 1, m.iid, kp, kp.len());
    }
    assert(walked(st, k, ks, cost as int));
    lemma_user_frames(st, k, ks, cost as int, mods, s.frames, s.frames.len());
    let spots = ks + us;
    assert(u.fids.len() == spots.len());
    if u.fids.len() > 0 {
        let listed = u.fids.reverse();
        let c = interner::callstack_step(u.state, listed);
        told::lemma_callstack_is_told(u.state, listed);
        told::lemma_tells_join(
            st,
            u.state,
            c.state,
            u.out,
            c.out,
            (cost + 2 * s.frames.len()) as int,
            1,
        );
        let n = spots.len() as int;
        assert forall|t: int| 0 <= t < n implies stands_for(
            r.state,
            listed[n - 1 - t],
            #[trigger] spots[t],
        ) by {
            assert(listed[n - 1 - t] == u.fids[t]);
            assert(stands_for(u.state, u.fids[t], spots[t]));
            lemma_stands_stays(u.state, c.state, u.fids[t], spots[t]);
        }
    }
}

/// A user address is shown in a module that starts at or below it and ends behind it.
pub proof fn lemma_spot_is_held(mods: Seq<Module>, pc: u64)
    ensures
        holding(mods, pc) matches Some(i) ==> i < mods.len() && mods[i as int].base <= pc
            < mods[i as int].end,
{
    sorted::lemma_slot(mods, pc);
}

/// The law of a sample's packet: it says when the sample was taken, of which thread on
/// which CPU, its callstack, and what it weighs, in nanoseconds (6).
#[verifier::spinoff_prover]
#[verifier::rlimit(40)]
pub proof fn lemma_sample_read_back(ts_ns: u64, s: DecodedView, i: Interned, weight_ns: u64)
    requires
        sample_packet(ts_ns, s, i, weight_ns).len() < 0x8_0000_0000,
    ensures
        ({
            let p = sample_packet(ts_ns, s, i, weight_ns);
            &&& wire::under(p, 8) == wire::one(ts_ns)
            &&& wire::under(p, 13) == wire::one(2)
            &&& i.out.len() > 0 ==> wire::under(p, 12) == wire::one_text(i.out)
            &&& i.out.len() == 0 ==> wire::under(p, 12).len() == 0
            &&& exists|b: Seq<u8>|
                {
                    &&& #[trigger] wire::one_text(b) == wire::under(p, 66)
                    &&& wire::under(b, 1) == wire::one_unless_zero(s.cpu as u64)
                    &&& s.pid < 0x1_0000_0000 ==> wire::under(b, 2) == wire::one_unless_zero(s.pid)
                    &&& s.tid < 0x1_0000_0000 ==> wire::under(b, 3) == wire::one_unless_zero(s.tid)
                    &&& wire::under(b, 4) == wire::one_unless_zero(i.iid)
                    &&& wire::under(b, 6) == wire::one_unless_zero(weight_ns)
                    &&& wire::under(b, 7).len() == 0
                    &&& wire::under(b, 20).len() == 0
                    &&& wire::under(b, 21).len() == 0
                }
        }),
{
    let pid = (s.pid % 0x1_0000_0000) as u32;
    let tid = (s.tid % 0x1_0000_0000) as u32;
    let body = packets::perf_sample_body(
        s.cpu,
        pid,
        tid,
        i.iid,
        weight_ns,
        Seq::empty(),
        0,
        None,
    );
    let p = sample_packet(ts_ns, s, i, weight_ns);
    lemma_packet_read_back(ts_ns, i.out, body);
    packets::lemma_perf_sample_read_back(
        s.cpu,
        pid,
        tid,
        i.iid,
        weight_ns,
        Seq::empty(),
        0,
        None,
    );
    assert(wire::one_text(body) == wire::under(p, 66));
}

#[verifier::spinoff_prover]
#[verifier::rlimit(40)]
proof fn lemma_packet_read_back(ts_ns: u64, interned: Seq<u8>, body: Seq<u8>)
    requires
        (wire::varint_field(8, ts_ns) + wire::varint_field(13, SEQ_NEEDS_INCREMENTAL_STATE as u64)
            + wire::nonempty_field(12, interned) + wire::sub_message(
            TP_FIELD_PERF_SAMPLE,
            body,
        )).len() < 0x8_0000_0000,
    ensures
        ({
            let p = wire::varint_field(8, ts_ns) + wire::varint_field(
                13,
                SEQ_NEEDS_INCREMENTAL_STATE as u64,
            ) + wire::nonempty_field(12, interned) + wire::sub_message(TP_FIELD_PERF_SAMPLE, body);
            &&& wire::under(p, 8) == wire::one(ts_ns)
            &&& wire::under(p, 13) == wire::one(2)
            &&& interned.len() > 0 ==> wire::under(p, 12) == wire::one_text(interned)
            &&& interned.len() == 0 ==> wire::under(p, 12).len() == 0
            &&& wire::under(p, 66) == wire::one_text(body)
        }),
{
    let a = wire::varint_field(8, ts_ns);
    let b = wire::varint_field(13, SEQ_NEEDS_INCREMENTAL_STATE as u64);
    let c = wire::nonempty_field(12, interned);
    let d = wire::sub_message(TP_FIELD_PERF_SAMPLE, body);
    let p = a + b + c + d;
    assert(p.len() == a.len() + b.len() + c.len() + d.len());
    assert(c.len() >= interned.len());
    wire::lemma_under_varint(8, ts_ns);
    wire::lemma_under_varint(13, SEQ_NEEDS_INCREMENTAL_STATE as u64);
    wire::lemma_under_nonempty(12, interned);
    wire::lemma_under_sub_message(TP_FIELD_PERF_SAMPLE, body);
    wire::lemma_join(a, b);
    wire::lemma_join(a + b, c);
    wire::lemma_join(a + b + c, d);
    assert(wire::under(p, 8) =~= wire::one(ts_ns));
    assert(wire::under(p, 13) =~= wire::one(2));
    assert(wire::under(p, 12) =~= wire::under(c, 12));
    assert(wire::under(p, 66) =~= wire::one_text(body));
}

/// A module's build id is its uuid, unless that is all zeros: such a module has none.
pub proof fn lemma_identity(uuid: Seq<u8>)
    ensures
        identity(uuid).len() == 0 <==> forall|i: int| 0 <= i < uuid.len() ==> uuid[i] == 0,
        identity(uuid).len() > 0 ==> identity(uuid) == uuid,
{
}

/// What a sequence starts with, read back: the name of what its samples are weighted by;
/// they are of threads, stamped by the monotonic clock, and what was interned before is
/// forgotten.
pub proof fn lemma_defaults_read_back(timebase_name: Seq<u8>)
    requires
        defaults_packet(timebase_name).len() < 0x8_0000_0000,
    ensures
        ({
            let p = defaults_packet(timebase_name);
            &&& wire::under(p, 13) == wire::one(1)
            &&& exists|d: Seq<u8>, s: Seq<u8>, t: Seq<u8>|
                {
                    &&& #[trigger] wire::one_text(d) == wire::under(p, 59)
                    &&& wire::under(d, 58) == wire::one(3)
                    &&& #[trigger] wire::one_text(s) == wire::under(d, 12)
                    &&& wire::under(s, 5) == wire::one(2)
                    &&& #[trigger] wire::one_text(t) == wire::under(s, 1)
                    &&& wire::under(t, 10) == wire::one_text(timebase_name)
                    &&& wire::under(s, 4).len() == 0
                }
        }),
{
    packets::lemma_perf_defaults_read_back(timebase_name, 0, Seq::empty(), 2, 3, 1);
}

/// A user address that a module holds is shown there, where the modules are ordered and
/// stand apart.
pub proof fn lemma_held_spot_is_found(mods: Seq<Module>, pc: u64, i: int)
    requires
        sorted::ordered(mods),
        0 <= i < mods.len(),
        mods[i].base <= pc < mods[i].end,
        i + 1 < mods.len() ==> pc < mods[i + 1].base,
    ensures
        holding(mods, pc) == Some(i as nat),
{
    sorted::lemma_slot(mods, pc);
    let k = sorted::slot(mods, pc);
    assert(mods[i].key() <= pc);
    assert(k > i);
    if k > i + 1 {
        assert(mods[i + 1].key() <= pc);
    }
}

} // verus!
