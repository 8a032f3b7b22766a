//! The records that the BPF programs put into the ring buffer, little-endian.
//! Every record starts with a u32 that says which one it is.

use crate::bytes;
use crate::bytes::{read_le_u32, read_le_u64};
use vstd::prelude::*;
use vstd::slice::{slice_subrange, slice_to_vec};

verus! {

pub const SISMO_MAX_STACK: usize = 64;

pub const SISMO_MAX_KERNEL_STACK: usize = 64;

pub const SISMO_MAX_PY_FRAMES: usize = 16;

pub const SISMO_KSYM_NAME_MAX: usize = 96;

pub const SISMO_PY_NAME_MAX: usize = 128;

pub const SISMO_COUNTER_SLOTS: usize = 12;

pub const SISMO_EVT_SAMPLE: u32 = 0;

pub const SISMO_EVT_KSYM: u32 = 1;

pub const SISMO_EVT_OFFCPU: u32 = 2;

pub const SISMO_EVT_FILE: u32 = 3;

pub const SISMO_EVT_SAMPLE_UNWIND: u32 = 4;

pub const SISMO_EVT_PYFRAME: u32 = 5;

pub const SISMO_EVT_MODULE: u32 = 6;

/// Bytes of a module's mapped image in a module record: one page.
pub const SISMO_MODULE_PREFIX: usize = 4096;

/// Bytes of the copy of the user stack in an unwind record.
pub const SISMO_STACK_SNAP_MAX: usize = 8192;

pub const HDR_LEN: usize = 40;

pub const SAMPLE_LEN: usize = 976;

pub const UNWIND_LEN: usize = 9200;

pub const KSYM_LEN: usize = 104;

pub const PYFRAME_LEN: usize = 136;

pub const MODULE_LEN: usize = 4112;

/// The header of a sample.
#[derive(Clone, Copy, PartialEq, Eq, Structural, Debug)]
pub struct SismoHdr {
    pub kind: u32,
    pub tid: u32,
    pub pid: u32,
    pub cpu: u32,
    pub timebase: u32,
    pub nr_frames: u32,
    pub nr_kernel_frames: u32,
    pub nr_py_frames: u32,
    pub ts: u64,
}

/// A sample. `stack` holds user addresses and `kernel_ids` ids of kernel symbols,
/// leaf first; `py_ids` holds ids of Python frame names, leaf first.
pub struct SismoSampleRec {
    pub hdr: SismoHdr,
    pub data_addr: u64,
    pub counters: Vec<u64>,
    pub stack: Vec<u64>,
    pub kernel_ids: Vec<u32>,
    pub py_ids: Vec<u32>,
}

/// A sample with the registers and a copy of the user stack.
pub struct SismoUnwindRec {
    pub sample: SismoSampleRec,
    pub regs_ip: u64,
    pub regs_sp: u64,
    pub regs_bp: u64,
    pub stack_len: u32,
    pub stack_trunc: u32,
    pub stack_bytes: Vec<u8>,
}

/// The name of a kernel symbol or of a file, by id. The name ends at a NUL.
pub struct SismoKsymRec {
    pub id: u32,
    pub name: Vec<u8>,
}

/// The name of a Python frame, by id.
pub struct SismoPyframeRec {
    pub id: u32,
    pub name: Vec<u8>,
}

/// The start of a module's mapped image.
pub struct SismoModuleRec {
    pub prefix_len: u32,
    pub base: u64,
    pub prefix: Vec<u8>,
}

/// What the in-BPF walk of a Python interpreter reads: where `_PyRuntime` is, and
/// the offsets of the fields it follows. A `runtime` of 0 turns the walk off.
#[derive(Clone, Copy, PartialEq, Eq, Structural, Debug)]
pub struct SismoPyCfg {
    pub runtime: u64,
    pub interpreters_head: u64,
    pub threads_head: u64,
    pub current_frame: u64,
    pub frame_previous: u64,
    pub frame_executable: u64,
    pub code_qualname: u64,
    pub unicode_length: u64,
    pub unicode_data: u64,
}

impl Default for SismoPyCfg {
    fn default() -> (r: Self)
        ensures
            r == (SismoPyCfg {
                runtime: 0,
                interpreters_head: 0,
                threads_head: 0,
                current_frame: 0,
                frame_previous: 0,
                frame_executable: 0,
                code_qualname: 0,
                unicode_length: 0,
                unicode_data: 0,
            }),
    {
        SismoPyCfg {
            runtime: 0,
            interpreters_head: 0,
            threads_head: 0,
            current_frame: 0,
            frame_previous: 0,
            frame_executable: 0,
            code_qualname: 0,
            unicode_length: 0,
            unicode_data: 0,
        }
    }
}

pub enum Record {
    Sample(SismoSampleRec),
    Ksym(SismoKsymRec),
    OffCpu(SismoSampleRec),
    File(SismoKsymRec),
    SampleUnwind(SismoUnwindRec),
    PyFrame(SismoPyframeRec),
    Module(SismoModuleRec),
    Other,
}

impl SismoSampleRec {
    pub open spec fn wf(self) -> bool {
        &&& self.counters@.len() == SISMO_COUNTER_SLOTS
        &&& self.stack@.len() == SISMO_MAX_STACK
        &&& self.kernel_ids@.len() == SISMO_MAX_KERNEL_STACK
        &&& self.py_ids@.len() == SISMO_MAX_PY_FRAMES
    }

    /// The user addresses that were sampled.
    pub open spec fn user_pcs(self) -> Seq<u64> {
        self.stack@.take(shown(self.hdr.nr_frames, SISMO_MAX_STACK as nat) as int)
    }

    /// The kernel symbol ids that were sampled.
    pub open spec fn kernel_frames(self) -> Seq<u32> {
        self.kernel_ids@.take(
            shown(self.hdr.nr_kernel_frames, SISMO_MAX_KERNEL_STACK as nat) as int,
        )
    }

    /// The Python name ids that were sampled.
    pub open spec fn py_frames(self) -> Seq<u32> {
        self.py_ids@.take(shown(self.hdr.nr_py_frames, SISMO_MAX_PY_FRAMES as nat) as int)
    }

    /// The user addresses that were sampled.
    pub fn user_stack(&self) -> (r: Vec<u64>)
        requires
            self.wf(),
        ensures
            r@ == self.user_pcs(),
    {
        let n: usize = if self.hdr.nr_frames < 64 {
            self.hdr.nr_frames as usize
        } else {
            SISMO_MAX_STACK
        };
        let part = slice_subrange(self.stack.as_slice(), 0, n);
        assert(part@ =~= self.user_pcs());
        slice_to_vec(part)
    }
}

/// A count, cut to what the record has room for.
pub open spec fn shown(n: u32, max: nat) -> nat {
    if (n as nat) < max {
        n as nat
    } else {
        max
    }
}

pub open spec fn u64s(b: Seq<u8>, off: int, n: nat) -> Seq<u64> {
    Seq::new(n, |i: int| bytes::le_u64(b, off + 8 * i))
}

pub open spec fn u32s(b: Seq<u8>, off: int, n: nat) -> Seq<u32> {
    Seq::new(n, |i: int| bytes::le_u32(b, off + 4 * i))
}

pub open spec fn hdr_at(b: Seq<u8>) -> SismoHdr {
    SismoHdr {
        kind: bytes::le_u32(b, 0),
        tid: bytes::le_u32(b, 4),
        pid: bytes::le_u32(b, 8),
        cpu: bytes::le_u32(b, 12),
        timebase: bytes::le_u32(b, 16),
        nr_frames: bytes::le_u32(b, 20),
        nr_kernel_frames: bytes::le_u32(b, 24),
        nr_py_frames: bytes::le_u32(b, 28),
        ts: bytes::le_u64(b, 32),
    }
}

/// Whether `r` is the sample that starts `b`.
pub open spec fn is_sample(r: SismoSampleRec, b: Seq<u8>) -> bool {
    &&& r.hdr == hdr_at(b)
    &&& r.data_addr == bytes::le_u64(b, 40)
    &&& r.counters@ == u64s(b, 48, 12)
    &&& r.stack@ == u64s(b, 144, 64)
    &&& r.kernel_ids@ == u32s(b, 656, 64)
    &&& r.py_ids@ == u32s(b, 912, 16)
}

pub open spec fn is_unwind(r: SismoUnwindRec, b: Seq<u8>) -> bool {
    &&& is_sample(r.sample, b)
    &&& r.regs_ip == bytes::le_u64(b, 976)
    &&& r.regs_sp == bytes::le_u64(b, 984)
    &&& r.regs_bp == bytes::le_u64(b, 992)
    &&& r.stack_len == bytes::le_u32(b, 1000)
    &&& r.stack_trunc == bytes::le_u32(b, 1004)
    &&& r.stack_bytes@ == b.subrange(1008, 9200)
}

pub open spec fn is_ksym(r: SismoKsymRec, b: Seq<u8>) -> bool {
    r.id == bytes::le_u32(b, 4) && r.name@ == b.subrange(8, 104)
}

pub open spec fn is_pyframe(r: SismoPyframeRec, b: Seq<u8>) -> bool {
    r.id == bytes::le_u32(b, 4) && r.name@ == b.subrange(8, 136)
}

pub open spec fn is_module(r: SismoModuleRec, b: Seq<u8>) -> bool {
    &&& r.prefix_len == bytes::le_u32(b, 4)
    &&& r.base == bytes::le_u64(b, 8)
    &&& r.prefix@ == b.subrange(16, 4112)
}

/// How long the record of a kind is.
pub open spec fn record_len(kind: u32) -> nat {
    if kind == SISMO_EVT_SAMPLE || kind == SISMO_EVT_OFFCPU {
        SAMPLE_LEN as nat
    } else if kind == SISMO_EVT_KSYM || kind == SISMO_EVT_FILE {
        KSYM_LEN as nat
    } else if kind == SISMO_EVT_SAMPLE_UNWIND {
        UNWIND_LEN as nat
    } else if kind == SISMO_EVT_PYFRAME {
        PYFRAME_LEN as nat
    } else if kind == SISMO_EVT_MODULE {
        MODULE_LEN as nat
    } else {
        4
    }
}

/// Whether `r` is the record of kind `kind` that starts `b`.
pub open spec fn is_record(r: Record, kind: u32, b: Seq<u8>) -> bool {
    match r {
        Record::Sample(s) => kind == SISMO_EVT_SAMPLE && is_sample(s, b) && s.wf(),
        Record::Ksym(s) => kind == SISMO_EVT_KSYM && is_ksym(s, b),
        Record::OffCpu(s) => kind == SISMO_EVT_OFFCPU && is_sample(s, b) && s.wf(),
        Record::File(s) => kind == SISMO_EVT_FILE && is_ksym(s, b),
        Record::SampleUnwind(s) => kind == SISMO_EVT_SAMPLE_UNWIND && is_unwind(s, b)
            && s.sample.wf(),
        Record::PyFrame(s) => kind == SISMO_EVT_PYFRAME && is_pyframe(s, b),
        Record::Module(s) => kind == SISMO_EVT_MODULE && is_module(s, b),
        Record::Other => kind > SISMO_EVT_MODULE,
    }
}

fn read_u64s(b: &[u8], off: usize, n: usize) -> (r: Vec<u64>)
    requires
        off + 8 * n <= b@.len(),
    ensures
        r@ == u64s(b@, off as int, n as nat),
{
    assert(off + 8 * n <= b.len());
    let mut r: Vec<u64> = Vec::new();
    let mut i: usize = 0;
    while i < n
        invariant
            i <= n,
            off + 8 * n <= b.len(),
            r@ == u64s(b@, off as int, i as nat),
        decreases n - i,
    {
        r.push(read_le_u64(b, off + 8 * i));
        i += 1;
        assert(r@ =~= u64s(b@, off as int, i as nat));
    }
    r
}

fn read_u32s(b: &[u8], off: usize, n: usize) -> (r: Vec<u32>)
    requires
        off + 4 * n <= b@.len(),
    ensures
        r@ == u32s(b@, off as int, n as nat),
{
    assert(off + 4 * n <= b.len());
    let mut r: Vec<u32> = Vec::new();
    let mut i: usize = 0;
    while i < n
        invariant
            i <= n,
            off + 4 * n <= b.len(),
            r@ == u32s(b@, off as int, i as nat),
        decreases n - i,
    {
        r.push(read_le_u32(b, off + 4 * i));
        i += 1;
        assert(r@ =~= u32s(b@, off as int, i as nat));
    }
    r
}

fn read_sample(b: &[u8]) -> (r: SismoSampleRec)
    requires
        SAMPLE_LEN <= b@.len(),
    ensures
        is_sample(r, b@),
        r.wf(),
{
    let hdr = SismoHdr {
        kind: read_le_u32(b, 0),
        tid: read_le_u32(b, 4),
        pid: read_le_u32(b, 8),
        cpu: read_le_u32(b, 12),
        timebase: read_le_u32(b, 16),
        nr_frames: read_le_u32(b, 20),
        nr_kernel_frames: read_le_u32(b, 24),
        nr_py_frames: read_le_u32(b, 28),
        ts: read_le_u64(b, 32),
    };
    SismoSampleRec {
        hdr,
        data_addr: read_le_u64(b, 40),
        counters: read_u64s(b, 48, 12),
        stack: read_u64s(b, 144, 64),
        kernel_ids: read_u32s(b, 656, 64),
        py_ids: read_u32s(b, 912, 16),
    }
}

fn read_ksym(b: &[u8]) -> (r: SismoKsymRec)
    requires
        KSYM_LEN <= b@.len(),
    ensures
        is_ksym(r, b@),
{
    SismoKsymRec { id: read_le_u32(b, 4), name: slice_to_vec(slice_subrange(b, 8, 104)) }
}

/// The record that starts `data`; None where it is cut short. What follows the
/// record is not looked at.
pub fn decode_record(data: &[u8]) -> (r: Option<Record>)
    ensures
        r is None <==> data@.len() < 4 || data@.len() < record_len(bytes::le_u32(data@, 0)),
        r matches Some(x) ==> is_record(x, bytes::le_u32(data@, 0), data@),
{
    let len: usize = data.len();
    if len < 4 {
        return None;
    }
    let kind: u32 = read_le_u32(data, 0);
    if kind == SISMO_EVT_SAMPLE {
        if len < SAMPLE_LEN {
            return None;
        }
        Some(Record::Sample(read_sample(data)))
    } else if kind == SISMO_EVT_KSYM {
        if len < KSYM_LEN {
            return None;
        }
        Some(Record::Ksym(read_ksym(data)))
    } else if kind == SISMO_EVT_OFFCPU {
        if len < SAMPLE_LEN {
            return None;
        }
        Some(Record::OffCpu(read_sample(data)))
    } else if kind == SISMO_EVT_FILE {
        if len < KSYM_LEN {
            return None;
        }
        Some(Record::File(read_ksym(data)))
    } else if kind == SISMO_EVT_SAMPLE_UNWIND {
        if len < UNWIND_LEN {
            return None;
        }
        let r = SismoUnwindRec {
            sample: read_sample(data),
            regs_ip: read_le_u64(data, 976),
            regs_sp: read_le_u64(data, 984),
            regs_bp: read_le_u64(data, 992),
            stack_len: read_le_u32(data, 1000),
            stack_trunc: read_le_u32(data, 1004),
            stack_bytes: slice_to_vec(slice_subrange(data, 1008, 9200)),
        };
        Some(Record::SampleUnwind(r))
    } else if kind == SISMO_EVT_PYFRAME {
        if len < PYFRAME_LEN {
            return None;
        }
        let r = SismoPyframeRec {
            id: read_le_u32(data, 4),
            name: slice_to_vec(slice_subrange(data, 8, 136)),
        };
        Some(Record::PyFrame(r))
    } else if kind == SISMO_EVT_MODULE {
        if len < MODULE_LEN {
            return None;
        }
        let r = SismoModuleRec {
            prefix_len: read_le_u32(data, 4),
            base: read_le_u64(data, 8),
            prefix: slice_to_vec(slice_subrange(data, 16, 4112)),
        };
        Some(Record::Module(r))
    } else {
        Some(Record::Other)
    }
}

/// The bytes of a sample: its header, the address that was touched, the counters, the
/// user addresses, the kernel symbols and the Python names, with nothing between them.
pub open spec fn sample_bytes(r: SismoSampleRec) -> Seq<u8> {
    bytes::words32(
        seq![
            r.hdr.kind,
            r.hdr.tid,
            r.hdr.pid,
            r.hdr.cpu,
            r.hdr.timebase,
            r.hdr.nr_frames,
            r.hdr.nr_kernel_frames,
            r.hdr.nr_py_frames,
        ],
    ) + bytes::words64(seq![r.hdr.ts, r.data_addr]) + bytes::words64(r.counters@)
        + bytes::words64(r.stack@) + bytes::words32(r.kernel_ids@) + bytes::words32(r.py_ids@)
}

/// A sample that was written is read back, whatever follows it.
#[verifier::spinoff_prover]
#[verifier::rlimit(40)]
pub proof fn lemma_sample_read_back(written: SismoSampleRec, read: SismoSampleRec, rest: Seq<u8>)
    requires
        written.wf(),
        is_sample(read, sample_bytes(written) + rest),
    ensures
        sample_bytes(written).len() == 976,
        read.hdr == written.hdr,
        read.data_addr == written.data_addr,
        read.counters@ == written.counters@,
        read.stack@ == written.stack@,
        read.kernel_ids@ == written.kernel_ids@,
        read.py_ids@ == written.py_ids@,
{
    let h = written.hdr;
    let heads = seq![
        h.kind,
        h.tid,
        h.pid,
        h.cpu,
        h.timebase,
        h.nr_frames,
        h.nr_kernel_frames,
        h.nr_py_frames,
    ];
    let longs = seq![h.ts, written.data_addr];
    let a = bytes::words32(heads);
    let c = bytes::words64(longs);
    let d = bytes::words64(written.counters@);
    let e = bytes::words64(written.stack@);
    let f = bytes::words32(written.kernel_ids@);
    let g = bytes::words32(written.py_ids@);
    let b = sample_bytes(written) + rest;
    bytes::lemma_words32_read_back(heads);
    bytes::lemma_words64_read_back(longs);
    bytes::lemma_words64_read_back(written.counters@);
    bytes::lemma_words64_read_back(written.stack@);
    bytes::lemma_words32_read_back(written.kernel_ids@);
    bytes::lemma_words32_read_back(written.py_ids@);
    bytes::lemma_append(a, c);
    bytes::lemma_append(a + c, d);
    bytes::lemma_append(a + c + d, e);
    bytes::lemma_append(a + c + d + e, f);
    bytes::lemma_append(a + c + d + e + f, g);
    bytes::lemma_append(sample_bytes(written), rest);
    assert(b.subrange(0, 32) == a) by {
        assert(a.subrange(0, 32) =~= a);
    }
    assert(b.subrange(32, 48) == c);
    assert(b.subrange(48, 144) == d);
    assert(b.subrange(144, 656) == e);
    assert(b.subrange(656, 912) == f);
    assert(b.subrange(912, 976) == g);
    bytes::lemma_numbers_in_part(b, 0, a);
    assert(forall|i: int| 0 <= i < 8 ==> #[trigger] bytes::le_u32(b, 0 + 4 * i) == heads[i]);
    assert(bytes::le_u32(b, 0 + 4 * 0int) == h.kind);
    assert(bytes::le_u32(b, 0 + 4 * 1int) == h.tid);
    assert(bytes::le_u32(b, 0 + 4 * 2int) == h.pid);
    assert(bytes::le_u32(b, 0 + 4 * 3int) == h.cpu);
    assert(bytes::le_u32(b, 0 + 4 * 4int) == h.timebase);
    assert(bytes::le_u32(b, 0 + 4 * 5int) == h.nr_frames);
    assert(bytes::le_u32(b, 0 + 4 * 6int) == h.nr_kernel_frames);
    assert(bytes::le_u32(b, 0 + 4 * 7int) == h.nr_py_frames);
    bytes::lemma_numbers_in_part(b, 32, c);
    assert(bytes::le_u64(c, 8 * 0int) == longs[0]);
    assert(bytes::le_u64(c, 8 * 1int) == longs[1]);
    assert(bytes::le_u64(b, 32 + 8 * 0int) == h.ts);
    assert(bytes::le_u64(b, 32 + 8 * 1int) == written.data_addr);
    bytes::lemma_numbers_in_part(b, 48, d);
    bytes::lemma_numbers_in_part(b, 144, e);
    bytes::lemma_numbers_in_part(b, 656, f);
    bytes::lemma_numbers_in_part(b, 912, g);
    assert forall|i: int| 0 <= i < 12 implies #[trigger] read.counters@[i]
        == written.counters@[i] by {
        assert(bytes::le_u64(b, 48 + 8 * i) == bytes::le_u64(d, 8 * i));
    }
    assert forall|i: int| 0 <= i < 64 implies #[trigger] read.stack@[i] == written.stack@[i] by {
        assert(bytes::le_u64(b, 144 + 8 * i) == bytes::le_u64(e, 8 * i));
    }
    assert forall|i: int| 0 <= i < 64 implies #[trigger] read.kernel_ids@[i]
        == written.kernel_ids@[i] by {
        assert(bytes::le_u32(b, 656 + 4 * i) == bytes::le_u32(f, 4 * i));
    }
    assert forall|i: int| 0 <= i < 16 implies #[trigger] read.py_ids@[i]
        == written.py_ids@[i] by {
        assert(bytes::le_u32(b, 912 + 4 * i) == bytes::le_u32(g, 4 * i));
    }
    assert(read.counters@ =~= written.counters@);
    assert(read.stack@ =~= written.stack@);
    assert(read.kernel_ids@ =~= written.kernel_ids@);
    assert(read.py_ids@ =~= written.py_ids@);
}

/// A sample with its registers and its copy of the stack, written and read back.
#[verifier::spinoff_prover]
#[verifier::rlimit(40)]
pub proof fn lemma_unwind_read_back(written: SismoUnwindRec, read: SismoUnwindRec, rest: Seq<u8>)
    requires
        written.sample.wf(),
        written.stack_bytes@.len() == SISMO_STACK_SNAP_MAX,
        is_unwind(
            read,
            sample_bytes(written.sample) + (bytes::words64(
                seq![written.regs_ip, written.regs_sp, written.regs_bp],
            ) + bytes::words32(seq![written.stack_len, written.stack_trunc])
                + written.stack_bytes@ + rest),
        ),
    ensures
        read.sample.hdr == written.sample.hdr,
        read.sample.stack@ == written.sample.stack@,
        read.regs_ip == written.regs_ip,
        read.regs_sp == written.regs_sp,
        read.regs_bp == written.regs_bp,
        read.stack_len == written.stack_len,
        read.stack_trunc == written.stack_trunc,
        read.stack_bytes@ == written.stack_bytes@,
{
    let regs = seq![written.regs_ip, written.regs_sp, written.regs_bp];
    let lens = seq![written.stack_len, written.stack_trunc];
    let a = sample_bytes(written.sample);
    let c = bytes::words64(regs);
    let d = bytes::words32(lens);
    let tail = c + d + written.stack_bytes@ + rest;
    let b = a + tail;
    lemma_sample_read_back(written.sample, read.sample, tail);
    bytes::lemma_words64_read_back(regs);
    bytes::lemma_words32_read_back(lens);
    assert(b.subrange(976, 1000) =~= c);
    assert(b.subrange(1000, 1008) =~= d);
    assert(b.subrange(1008, 9200) =~= written.stack_bytes@);
    bytes::lemma_numbers_in_part(b, 976, c);
    bytes::lemma_numbers_in_part(b, 1000, d);
    assert(bytes::le_u64(c, 8 * 0int) == regs[0]);
    assert(bytes::le_u64(c, 8 * 1int) == regs[1]);
    assert(bytes::le_u64(c, 8 * 2int) == regs[2]);
    assert(bytes::le_u64(b, 976 + 8 * 0int) == written.regs_ip);
    assert(bytes::le_u64(b, 976 + 8 * 1int) == written.regs_sp);
    assert(bytes::le_u64(b, 976 + 8 * 2int) == written.regs_bp);
    assert(bytes::le_u32(d, 4 * 0int) == lens[0]);
    assert(bytes::le_u32(d, 4 * 1int) == lens[1]);
    assert(bytes::le_u32(b, 1000 + 4 * 0int) == written.stack_len);
    assert(bytes::le_u32(b, 1000 + 4 * 1int) == written.stack_trunc);
}

/// The name of a symbol, of a file or of a Python frame and the start of a module, written
/// and read back: the kind, the number, then the bytes.
pub proof fn lemma_named_read_back(
    kind: u32,
    id: u32,
    base: u64,
    name: Seq<u8>,
    k: SismoKsymRec,
    p: SismoPyframeRec,
    m: SismoModuleRec,
    rest: Seq<u8>,
)
    ensures
        name.len() == 96 && is_ksym(k, bytes::words32(seq![kind, id]) + name + rest) ==> k.id
            == id && k.name@ == name,
        name.len() == 128 && is_pyframe(p, bytes::words32(seq![kind, id]) + name + rest) ==> p.id
            == id && p.name@ == name,
        name.len() == 4096 && is_module(
            m,
            bytes::words32(seq![kind, id]) + bytes::words64(seq![base]) + name + rest,
        ) ==> m.prefix_len == id && m.base == base && m.prefix@ == name,
{
    let h = bytes::words32(seq![kind, id]);
    let w = bytes::words64(seq![base]);
    bytes::lemma_words32_read_back(seq![kind, id]);
    bytes::lemma_words64_read_back(seq![base]);
    assert(bytes::le_u32(h, 4 * 1int) == seq![kind, id][1]);
    assert(bytes::le_u64(w, 8 * 0int) == seq![base][0]);
    let b = h + name + rest;
    let c = h + w + name + rest;
    assert(b.subrange(4, 8) =~= h.subrange(4, 8));
    assert(c.subrange(4, 8) =~= h.subrange(4, 8));
    assert(c.subrange(8, 16) =~= w.subrange(0, 8));
    assert(b.subrange(8, (8 + name.len()) as int) =~= name);
    assert(c.subrange(16, (16 + name.len()) as int) =~= name);
}

/// The frames of a sample are as many as its header counts, as far as it has room, and
/// they are the first ones.
pub proof fn lemma_frames_shown(r: SismoSampleRec)
    requires
        r.wf(),
    ensures
        r.hdr.nr_frames <= 64 ==> r.user_pcs().len() == r.hdr.nr_frames,
        r.hdr.nr_frames > 64 ==> r.user_pcs() == r.stack@,
        r.hdr.nr_kernel_frames <= 64 ==> r.kernel_frames().len() == r.hdr.nr_kernel_frames,
        r.hdr.nr_kernel_frames > 64 ==> r.kernel_frames() == r.kernel_ids@,
        r.hdr.nr_py_frames <= 16 ==> r.py_frames().len() == r.hdr.nr_py_frames,
        r.hdr.nr_py_frames > 16 ==> r.py_frames() == r.py_ids@,
        forall|i: int| 0 <= i < r.user_pcs().len() ==> #[trigger] r.user_pcs()[i] == r.stack@[i],
        forall|i: int|
            0 <= i < r.kernel_frames().len() ==> #[trigger] r.kernel_frames()[i]
                == r.kernel_ids@[i],
        forall|i: int| 0 <= i < r.py_frames().len() ==> #[trigger] r.py_frames()[i] == r.py_ids@[i],
{
    assert(r.stack@.take(64) =~= r.stack@);
    assert(r.kernel_ids@.take(64) =~= r.kernel_ids@);
    assert(r.py_ids@.take(16) =~= r.py_ids@);
}

/// What each kind of record is taken for, by the number that it starts with.
pub proof fn lemma_record_kinds(r: Record, kind: u32, b: Seq<u8>)
    requires
        is_record(r, kind, b),
    ensures
        r is Sample <==> kind == 0,
        r is Ksym <==> kind == 1,
        r is OffCpu <==> kind == 2,
        r is File <==> kind == 3,
        r is SampleUnwind <==> kind == 4,
        r is PyFrame <==> kind == 5,
        r is Module <==> kind == 6,
        r is Other <==> kind >= 7,
{
}

} // verus!
