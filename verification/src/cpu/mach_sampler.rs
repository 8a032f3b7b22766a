//! Sampling one thread: its CPU time says whether it ran; one that did is
//! suspended, its registers are read, its stack is walked, and it is resumed.

use crate::bytes;
use crate::bytes::low_u32;
use crate::proto::packets;
use crate::proto::packets::write_perf_sample;
use crate::proto::wire;
use crate::proto::writer::ProtoWriter;
use crate::worker_sdk::{read_i32, read_u64};
use vstd::prelude::*;

verus! {

pub const THREAD_BASIC_INFO_BYTES: usize = 40;

pub const ARM_THREAD_STATE64_SIZE: usize = 272;

pub const OFF_FP: usize = 232;

pub const OFF_LR: usize = 240;

pub const OFF_SP: usize = 248;

pub const OFF_PC: usize = 256;

pub const OFF_USER_SEC: usize = 0;

pub const OFF_USER_USEC: usize = 4;

pub const OFF_SYS_SEC: usize = 8;

pub const OFF_SYS_USEC: usize = 12;

pub const TP_FIELD_PERF_SAMPLE: u32 = 66;

pub const MAX_FRAMES: usize = 32;

/// The bits of an address below its signature.
pub const ADDRESS_SPACE: u64 = 0x100_0000_0000;

/// The i32 at an offset.
pub open spec fn int_at(b: Seq<u8>, off: usize) -> int {
    bytes::bits_to_i32(bytes::le_u32(b, off as int) as int) as int
}

/// Whether a thread's buffer holds times: none is negative.
pub open spec fn holds_times(b: Seq<u8>) -> bool {
    int_at(b, OFF_USER_SEC) >= 0 && int_at(b, OFF_USER_USEC) >= 0 && int_at(b, OFF_SYS_SEC) >= 0
        && int_at(b, OFF_SYS_USEC) >= 0
}

/// The user and system time of a thread, in microseconds.
pub open spec fn cpu_time(b: Seq<u8>) -> int {
    int_at(b, OFF_USER_SEC) * 1_000_000 + int_at(b, OFF_USER_USEC) + int_at(b, OFF_SYS_SEC)
        * 1_000_000 + int_at(b, OFF_SYS_USEC)
}

/// Whether a thread's buffer holds times.
pub fn has_times(buf: &[u8]) -> (r: bool)
    requires
        buf@.len() == THREAD_BASIC_INFO_BYTES,
    ensures
        r == holds_times(buf@),
{
    read_i32(buf, OFF_USER_SEC) >= 0 && read_i32(buf, OFF_USER_USEC) >= 0 && read_i32(
        buf,
        OFF_SYS_SEC,
    ) >= 0 && read_i32(buf, OFF_SYS_USEC) >= 0
}

/// The CPU time of a thread, where the kernel filled its buffer.
pub fn thread_cpu_time_us(filled: bool, buf: &[u8]) -> (r: Option<u64>)
    requires
        buf@.len() == THREAD_BASIC_INFO_BYTES,
        filled ==> holds_times(buf@),
    ensures
        r == (if filled {
            Some(cpu_time(buf@) as u64)
        } else {
            None
        }),
{
    if !filled {
        return None;
    }
    let user: u64 = read_i32(buf, OFF_USER_SEC) as u64 * 1_000_000 + read_i32(
        buf,
        OFF_USER_USEC,
    ) as u64;
    let system: u64 = read_i32(buf, OFF_SYS_SEC) as u64 * 1_000_000 + read_i32(
        buf,
        OFF_SYS_USEC,
    ) as u64;
    Some(user + system)
}

/// The registers that a stack is walked from.
#[derive(Clone, Copy, PartialEq, Eq, Structural, Debug)]
pub struct StackRegs {
    pub pc: u64,
    pub fp: u64,
    pub lr: u64,
    pub sp: u64,
}

/// An address without its signature.
pub fn strip_pac(v: u64) -> (r: u64)
    ensures
        r == v % ADDRESS_SPACE,
{
    v % ADDRESS_SPACE
}

/// The signature is what stands above the low 40 bits.
pub proof fn lemma_pac_is_masked(v: u64)
    ensures
        v % ADDRESS_SPACE == v & 0x0000_00FF_FFFF_FFFF,
{
    assert(v % 0x100_0000_0000 == v & 0x0000_00FF_FFFF_FFFF) by (bit_vector);
}

pub open spec fn regs_in(state: Seq<u8>) -> StackRegs {
    StackRegs {
        pc: bytes::le_u64(state, OFF_PC as int) % ADDRESS_SPACE,
        fp: bytes::le_u64(state, OFF_FP as int) % ADDRESS_SPACE,
        lr: bytes::le_u64(state, OFF_LR as int) % ADDRESS_SPACE,
        sp: bytes::le_u64(state, OFF_SP as int) % ADDRESS_SPACE,
    }
}

/// The registers of a suspended thread.
pub fn stack_regs(state: &[u8]) -> (r: StackRegs)
    requires
        state@.len() == ARM_THREAD_STATE64_SIZE,
    ensures
        r == regs_in(state@),
{
    StackRegs {
        pc: strip_pac(read_u64(state, OFF_PC)),
        fp: strip_pac(read_u64(state, OFF_FP)),
        lr: strip_pac(read_u64(state, OFF_LR)),
        sp: strip_pac(read_u64(state, OFF_SP)),
    }
}

/// What came of sampling a thread.
pub struct ThreadSample {
    /// The CPU time to compare with the next time.
    pub new_cpu_us: u64,
    /// Whether the thread ran since the last time.
    pub active: bool,
    /// The packet of a thread that ran and whose stack was walked.
    pub packet: Option<Vec<u8>>,
}

/// What is to be done next.
#[derive(Clone, Copy, PartialEq, Eq, Structural, Debug)]
pub enum SampleStep {
    ReadTime,
    Suspend,
    ReadState,
    Walk,
    /// Resume the thread; whether a packet follows.
    Resume(bool),
    /// Done; whether with a packet.
    Done(bool),
}

/// What follows a step that went well or not.
pub open spec fn step_after(s: SampleStep, ok: bool) -> SampleStep {
    match s {
        SampleStep::ReadTime => if ok {
            SampleStep::Suspend
        } else {
            SampleStep::Done(false)
        },
        SampleStep::Suspend => if ok {
            SampleStep::ReadState
        } else {
            SampleStep::Done(false)
        },
        SampleStep::ReadState => if ok {
            SampleStep::Walk
        } else {
            SampleStep::Resume(false)
        },
        SampleStep::Walk => SampleStep::Resume(true),
        SampleStep::Resume(p) => SampleStep::Done(p),
        SampleStep::Done(p) => SampleStep::Done(p),
    }
}

/// Sampling one thread.
#[derive(Clone, Copy, PartialEq, Eq, Structural, Debug)]
pub struct ThreadSampler {
    pub step: SampleStep,
    pub new_cpu_us: u64,
    pub active: bool,
}

impl ThreadSampler {
    /// Start with the CPU time that was read: a thread whose time could not be
    /// read, or that did not run, is done.
    pub fn start(cpu_us: Option<u64>, last_cpu_us: u64) -> (s: Self)
        ensures
            s == (match cpu_us {
                Some(c) => ThreadSampler {
                    step: step_after(SampleStep::ReadTime, c != last_cpu_us),
                    new_cpu_us: c,
                    active: c != last_cpu_us,
                },
                None => ThreadSampler {
                    step: SampleStep::Done(false),
                    new_cpu_us: last_cpu_us,
                    active: false,
                },
            }),
    {
        match cpu_us {
            Some(c) => if c != last_cpu_us {
                ThreadSampler { step: SampleStep::Suspend, new_cpu_us: c, active: true }
            } else {
                ThreadSampler { step: SampleStep::Done(false), new_cpu_us: c, active: false }
            },
            None => ThreadSampler {
                step: SampleStep::Done(false),
                new_cpu_us: last_cpu_us,
                active: false,
            },
        }
    }

    /// Go on after the current step.
    pub fn advance(&mut self, ok: bool)
        ensures
            *final(self) == (ThreadSampler { step: step_after(old(self).step, ok), ..*old(self) }),
    {
        self.step = match self.step {
            SampleStep::ReadTime => if ok {
                SampleStep::Suspend
            } else {
                SampleStep::Done(false)
            },
            SampleStep::Suspend => if ok {
                SampleStep::ReadState
            } else {
                SampleStep::Done(false)
            },
            SampleStep::ReadState => if ok {
                SampleStep::Walk
            } else {
                SampleStep::Resume(false)
            },
            SampleStep::Walk => SampleStep::Resume(true),
            SampleStep::Resume(p) => SampleStep::Done(p),
            SampleStep::Done(p) => SampleStep::Done(p),
        };
    }

    /// What came of it, at the time `now_ns`.
    pub fn finish(&self, now_ns: u64, pid: u32, tid: u64) -> (r: ThreadSample)
        ensures
            r.new_cpu_us == self.new_cpu_us,
            r.active == self.active,
            r.packet is Some <==> self.step == SampleStep::Done(true),
            r.packet matches Some(p) ==> p@ == leaf_packet(now_ns, pid, tid),
    {
        let with_packet: bool = match self.step {
            SampleStep::Done(p) => p,
            _ => false,
        };
        let packet: Option<Vec<u8>> = if with_packet {
            Some(encode_leaf_packet(now_ns, pid, tid))
        } else {
            None
        };
        ThreadSample { new_cpu_us: self.new_cpu_us, active: self.active, packet }
    }
}

/// The packet of a sample with no callstack.
pub open spec fn leaf_packet(now_ns: u64, pid: u32, tid: u64) -> Seq<u8> {
    wire::varint_field(8, now_ns) + wire::sub_message(
        TP_FIELD_PERF_SAMPLE,
        packets::perf_sample_body(
            0,
            pid,
            (tid % 0x1_0000_0000) as u32,
            0,
            0,
            Seq::empty(),
            0,
            None,
        ),
    )
}

fn encode_leaf_packet(now_ns: u64, pid: u32, tid: u64) -> (r: Vec<u8>)
    ensures
        r@ == leaf_packet(now_ns, pid, tid),
{
    let mut w = ProtoWriter::new();
    w.write_uint64(8, now_ns);
    write_perf_sample(&mut w, TP_FIELD_PERF_SAMPLE, 0, pid, low_u32(tid), 0, 0, &[], 0, None);
    assert(w@ =~= leaf_packet(now_ns, pid, tid));
    w.into_bytes()
}

/// Whether the thread is suspended before a step.
pub open spec fn is_suspended(s: SampleStep) -> bool {
    s is ReadState || s is Walk || s is Resume
}

/// A thread that was suspended is resumed: only the resuming step leaves it
/// running, and no other step ends the sampling while it is suspended.
pub proof fn lemma_suspended_is_resumed(s: SampleStep, ok: bool)
    ensures
        is_suspended(s) && !(s is Resume) ==> is_suspended(step_after(s, ok)),
        s is Resume ==> !is_suspended(step_after(s, ok)),
        !is_suspended(s) && is_suspended(step_after(s, ok)) ==> s is Suspend && ok,
{
}

/// What a reader of a thread's sample finds: the moment under 8, and under 66 the process
/// and the thread, and nothing else: it has no callstack.
pub proof fn lemma_leaf_read_back(now_ns: u64, pid: u32, tid: u64)
    ensures
        ({
            let p = leaf_packet(now_ns, pid, tid);
            &&& wire::under(p, 8) == wire::one(now_ns)
            &&& exists|b: Seq<u8>|
                {
                    &&& #[trigger] wire::one_text(b) == wire::under(p, 66)
                    &&& wire::under(b, 2) == wire::one_unless_zero(pid as u64)
                    &&& tid < 0x1_0000_0000 ==> wire::under(b, 3) == wire::one_unless_zero(tid)
                    &&& wire::under(b, 4).len() == 0
                    &&& wire::under(b, 6).len() == 0
                }
        }),
{
    let low = (tid % 0x1_0000_0000) as u32;
    let none = Seq::<u64>::empty();
    let b = packets::perf_sample_body(0, pid, low, 0, 0, none, 0, None);
    packets::lemma_perf_sample_read_back(0, pid, low, 0, 0, none, 0, None);
    wire::lemma_under_nonzero(2, pid as u64);
    wire::lemma_under_nonzero(3, low as u64);
    assert(b.len() <= 100);
    let x = wire::varint_field(8, now_ns);
    let y = wire::sub_message(TP_FIELD_PERF_SAMPLE, b);
    wire::lemma_under_varint(8, now_ns);
    wire::lemma_under_sub_message(TP_FIELD_PERF_SAMPLE, b);
    wire::lemma_join(x, y);
    assert(wire::under(x + y, 8) =~= wire::one(now_ns));
    assert(wire::under(x + y, 66) =~= wire::one_text(b));
}

/// The registers of a thread are read back, without their signatures: behind the 29 that
/// are of no use stand the frame pointer, the return address, the stack pointer and the
/// program counter.
#[verifier::spinoff_prover]
#[verifier::rlimit(40)]
pub proof fn lemma_registers_read_back(
    others: Seq<u64>,
    fp: u64,
    lr: u64,
    sp: u64,
    pc: u64,
    rest: Seq<u8>,
)
    requires
        others.len() == 29,
    ensures
        regs_in(bytes::words64(others + seq![fp, lr, sp, pc]) + rest) == (StackRegs {
            pc: pc & 0x0000_00FF_FFFF_FFFF,
            fp: fp & 0x0000_00FF_FFFF_FFFF,
            lr: lr & 0x0000_00FF_FFFF_FFFF,
            sp: sp & 0x0000_00FF_FFFF_FFFF,
        }),
{
    let all = others + seq![fp, lr, sp, pc];
    let a = bytes::words64(all);
    let b = a + rest;
    bytes::lemma_words64_read_back(all);
    bytes::lemma_append(a, rest);
    assert(b.subrange(0, a.len() as int) =~= a);
    bytes::lemma_numbers_in_part(b, 0, a);
    assert(bytes::le_u64(a, 8 * 29int) == all[29] && bytes::le_u64(b, 0 + 8 * 29int) == fp);
    assert(bytes::le_u64(a, 8 * 30int) == all[30] && bytes::le_u64(b, 0 + 8 * 30int) == lr);
    assert(bytes::le_u64(a, 8 * 31int) == all[31] && bytes::le_u64(b, 0 + 8 * 31int) == sp);
    assert(bytes::le_u64(a, 8 * 32int) == all[32] && bytes::le_u64(b, 0 + 8 * 32int) == pc);
    lemma_pac_is_masked(fp);
    lemma_pac_is_masked(lr);
    lemma_pac_is_masked(sp);
    lemma_pac_is_masked(pc);
}

/// The time of a thread is read back: the seconds and microseconds that it spent in user
/// mode, then those in the system, together.
pub proof fn lemma_time_read_back(
    user_s: u32,
    user_us: u32,
    system_s: u32,
    system_us: u32,
    rest: Seq<u8>,
)
    requires
        user_s < 0x8000_0000,
        user_us < 0x8000_0000,
        system_s < 0x8000_0000,
        system_us < 0x8000_0000,
    ensures
        ({
            let b = bytes::words32(seq![user_s, user_us, system_s, system_us]) + rest;
            &&& holds_times(b)
            &&& cpu_time(b) == (user_s + system_s) * 1_000_000 + user_us + system_us
        }),
{
    let all = seq![user_s, user_us, system_s, system_us];
    let a = bytes::words32(all);
    let b = a + rest;
    bytes::lemma_words32_read_back(all);
    assert(b.subrange(0, 16) =~= a);
    bytes::lemma_numbers_in_part(b, 0, a);
    assert(bytes::le_u32(a, 4 * 0int) == all[0] && bytes::le_u32(b, 0 + 4 * 0int) == user_s);
    assert(bytes::le_u32(a, 4 * 1int) == all[1] && bytes::le_u32(b, 0 + 4 * 1int) == user_us);
    assert(bytes::le_u32(a, 4 * 2int) == all[2] && bytes::le_u32(b, 0 + 4 * 2int) == system_s);
    assert(bytes::le_u32(a, 4 * 3int) == all[3] && bytes::le_u32(b, 0 + 4 * 3int) == system_us);
}

/// A thread has a packet exactly where it ran, could be suspended, and its registers could
/// be read.
pub proof fn lemma_sampled_iff_all_went_well(ran: bool, suspended: bool, read: bool, w: bool, r: bool)
    ensures
        ({
            let a = step_after(SampleStep::ReadTime, ran);
            let b = step_after(a, suspended);
            let c = step_after(b, read);
            let d = step_after(c, w);
            step_after(d, r) == SampleStep::Done(ran && suspended && read)
        }),
{
}

} // verus!
