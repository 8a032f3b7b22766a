//! What the interposed allocator does: which calls are sampled, the record of a
//! sampled allocation, and the batches in which frees are reported.

use crate::bytes;
use crate::bytes::append_bytes;
use crate::heap::macos_heap_capture;
use crate::heap::macos_heap_capture::FREE_BATCH_MAGIC;
use crate::heap_preload::wire;
use crate::heap_preload::wire::{
    append_zeros, encode_metadata, AllocMetadata, Arch, RegBlockArm64, ALLOC_METADATA_BYTES,
    STACK_SNAPSHOT_BYTES,
};
use vstd::bytes::*;
use vstd::prelude::*;

verus! {

/// How old the first entry of a batch may get before the batch is written.
pub const FLUSH_AGE_NS: u64 = 100_000_000;

/// How long a target that waits for the recorder waits at most.
pub const WAIT_ATTACH_MAX_MS: u64 = 5_000;

/// A call of the allocator.
#[derive(Clone, Copy, PartialEq, Eq, Structural, Debug)]
pub enum AllocatorCall {
    Malloc { size: u64 },
    Calloc { nmemb: u64, size: u64 },
    Valloc { size: u64 },
    AlignedAlloc { size: u64 },
    Realloc { ptr: u64, size: u64 },
    PosixMemalign { size: u64 },
    Free { ptr: u64 },
}

/// What is done around a call.
#[derive(Clone, Copy, PartialEq, Eq, Structural, Debug)]
pub struct Plan {
    /// Whether the call is looked at, with the guard held that keeps the preload's
    /// own calls out.
    pub guarded: bool,
    /// The address whose free is queued before the call is made.
    pub frees: Option<u64>,
    /// The size for which it is decided whether the call is sampled.
    pub samples: Option<u64>,
}

pub open spec fn saturated(n: int) -> u64 {
    if n > u64::MAX {
        u64::MAX
    } else {
        n as u64
    }
}

/// The address that a call gives back.
pub open spec fn freed_by(call: AllocatorCall) -> Option<u64> {
    match call {
        AllocatorCall::Realloc { ptr, size } => if ptr != 0 {
            Some(ptr)
        } else {
            None
        },
        AllocatorCall::Free { ptr } => if ptr != 0 {
            Some(ptr)
        } else {
            None
        },
        _ => None,
    }
}

/// The size that a call asks for.
pub open spec fn asked_for(call: AllocatorCall) -> Option<u64> {
    match call {
        AllocatorCall::Malloc { size } => Some(size),
        AllocatorCall::Calloc { nmemb, size } => Some(saturated(nmemb * size)),
        AllocatorCall::Valloc { size } => Some(size),
        AllocatorCall::AlignedAlloc { size } => Some(size),
        AllocatorCall::Realloc { ptr, size } => Some(size),
        AllocatorCall::PosixMemalign { size } => Some(size),
        AllocatorCall::Free { ptr } => None,
    }
}

/// What is done around a call. While no recorder is attached, and for the calls of
/// the preload itself, nothing is; nor for a free of null.
pub open spec fn plan_of(call: AllocatorCall, enabled: bool, in_capture: bool) -> Plan {
    if !enabled || in_capture || call == (AllocatorCall::Free { ptr: 0 }) {
        Plan { guarded: false, frees: None, samples: None }
    } else {
        Plan { guarded: true, frees: freed_by(call), samples: asked_for(call) }
    }
}

pub fn plan(call: AllocatorCall, enabled: bool, in_capture: bool) -> (p: Plan)
    ensures
        p == plan_of(call, enabled, in_capture),
{
    let passes: bool = match call {
        AllocatorCall::Free { ptr } => ptr == 0,
        _ => false,
    };
    if !enabled || in_capture || passes {
        return Plan { guarded: false, frees: None, samples: None };
    }
    match call {
        AllocatorCall::Malloc { size } => Plan { guarded: true, frees: None, samples: Some(size) },
        AllocatorCall::Calloc { nmemb, size } => {
            let total: u64 = match nmemb.checked_mul(size) {
                Some(t) => t,
                None => u64::MAX,
            };
            Plan { guarded: true, frees: None, samples: Some(total) }
        },
        AllocatorCall::Valloc { size } => Plan { guarded: true, frees: None, samples: Some(size) },
        AllocatorCall::AlignedAlloc { size } => Plan {
            guarded: true,
            frees: None,
            samples: Some(size),
        },
        AllocatorCall::Realloc { ptr, size } => {
            let frees: Option<u64> = if ptr != 0 {
                Some(ptr)
            } else {
                None
            };
            Plan { guarded: true, frees, samples: Some(size) }
        },
        AllocatorCall::PosixMemalign { size } => Plan {
            guarded: true,
            frees: None,
            samples: Some(size),
        },
        AllocatorCall::Free { ptr } => Plan { guarded: true, frees: Some(ptr), samples: None },
    }
}

/// Whether a call is recorded, once it returned `result`: it was sampled, and it
/// succeeded. `rc` is what posix_memalign returned, 0 for the others.
pub fn records(p: Plan, sample_size: u64, rc: i32, result: u64) -> (r: bool)
    ensures
        r == (p.guarded && p.samples is Some && sample_size != 0 && rc == 0 && result != 0),
{
    let samples: bool = match p.samples {
        Some(_) => true,
        None => false,
    };
    p.guarded && samples && sample_size != 0 && rc == 0 && result != 0
}

/// Nothing is queued or sampled while no recorder is attached, nor for the
/// preload's own calls.
pub proof fn lemma_dormant(call: AllocatorCall, enabled: bool, in_capture: bool)
    requires
        !enabled || in_capture,
    ensures
        plan_of(call, enabled, in_capture) == (Plan { guarded: false, frees: None, samples: None }),
{
}

/// The caller's frame, from the frame pointer of the function it called: there the
/// caller's frame pointer stands, and behind it the return address. The caller's
/// stack pointer was just above. `words` is the memory from `base` on.
pub open spec fn frame_at(words: Seq<u64>, base: u64, fp: u64) -> Option<(u64, RegBlockArm64)> {
    let k = (fp - base) / 8;
    if fp < base || (fp - base) % 8 != 0 || k + 1 >= words.len() || fp + 16 > u64::MAX {
        None
    } else {
        Some(
            (
                (fp + 16) as u64,
                RegBlockArm64 { pc: words[k + 1], lr: words[k + 1], fp: words[k], _padding: 0 },
            ),
        )
    }
}

/// The caller's stack pointer and registers.
pub fn capture_user_frame(words: &[u64], base: u64, fp: u64) -> (r: Option<(u64, RegBlockArm64)>)
    ensures
        r == frame_at(words@, base, fp),
{
    if fp < base || (fp - base) % 8 != 0 || fp > u64::MAX - 16 {
        return None;
    }
    let k: u64 = (fp - base) / 8;
    if k + 1 >= words.len() as u64 {
        return None;
    }
    let i: usize = k as usize;
    let pc: u64 = words[i + 1];
    Some((fp + 16, RegBlockArm64 { pc, lr: pc, fp: words[i], _padding: 0 }))
}

/// How much of the stack above the stack pointer is copied: what there is, up to
/// the size of a snapshot.
pub open spec fn snapshot(stack_top: u64, sp: u64) -> nat {
    if stack_top <= sp {
        0
    } else if stack_top - sp < STACK_SNAPSHOT_BYTES {
        (stack_top - sp) as nat
    } else {
        STACK_SNAPSHOT_BYTES as nat
    }
}

pub fn snapshot_len(stack_top: u64, sp: u64) -> (n: usize)
    ensures
        n == snapshot(stack_top, sp),
{
    if stack_top <= sp {
        0
    } else if stack_top - sp < STACK_SNAPSHOT_BYTES as u64 {
        (stack_top - sp) as usize
    } else {
        STACK_SNAPSHOT_BYTES
    }
}

/// The record of an allocation: its header, and the stack, filled up with zeros so
/// that a walk of it ends.
pub open spec fn alloc_record(m: AllocMetadata, stack: Seq<u8>) -> Seq<u8> {
    wire::metadata_bytes(m) + stack + wire::zeros((STACK_SNAPSHOT_BYTES - stack.len()) as nat)
}

pub fn encode_alloc_record(
    seq: u64,
    size: u64,
    sample_size: u64,
    ptr: u64,
    user_sp: u64,
    now_ns: u64,
    regs: RegBlockArm64,
    stack: &[u8],
) -> (v: Vec<u8>)
    requires
        stack@.len() <= STACK_SNAPSHOT_BYTES,
    ensures
        v@ == alloc_record(header(seq, size, sample_size, ptr, user_sp, now_ns, regs), stack@),
        v@.len() == ALLOC_METADATA_BYTES + STACK_SNAPSHOT_BYTES,
{
    let m = AllocMetadata {
        sequence_number: seq,
        alloc_size: size,
        sample_size,
        alloc_address: ptr,
        stack_pointer: user_sp,
        clock_monotonic_coarse_ts: now_ns,
        registers: regs,
        heap_id: 0,
        arch: Arch::Arm64,
    };
    let mut v = encode_metadata(&m);
    append_bytes(&mut v, stack);
    append_zeros(&mut v, STACK_SNAPSHOT_BYTES - stack.len());
    v
}

pub open spec fn header(
    seq: u64,
    size: u64,
    sample_size: u64,
    ptr: u64,
    user_sp: u64,
    now_ns: u64,
    regs: RegBlockArm64,
) -> AllocMetadata {
    AllocMetadata {
        sequence_number: seq,
        alloc_size: size,
        sample_size,
        alloc_address: ptr,
        stack_pointer: user_sp,
        clock_monotonic_coarse_ts: now_ns,
        registers: regs,
        heap_id: 0,
        arch: Arch::Arm64,
    }
}

/// The recorder reads of an allocation what the preload wrote. A sequence number
/// that is the mark of a batch of frees is left out.
pub proof fn lemma_alloc_read_back(
    m: AllocMetadata,
    stack: Seq<u8>,
    r: macos_heap_capture::HeapRecord,
)
    requires
        m.sequence_number != FREE_BATCH_MAGIC,
        stack.len() <= STACK_SNAPSHOT_BYTES,
        macos_heap_capture::is_record(alloc_record(m, stack), r),
    ensures
        r matches macos_heap_capture::HeapRecord::Alloc(a) && {
            &&& a.seq == m.sequence_number
            &&& a.sample_size == m.sample_size
            &&& a.addr == m.alloc_address
            &&& a.sp == m.stack_pointer
            &&& a.pc == m.registers.pc
            &&& a.lr == m.registers.lr
            &&& a.fp == m.registers.fp
            &&& a.stack@ == stack + wire::zeros((STACK_SNAPSHOT_BYTES - stack.len()) as nat)
        },
{
    lemma_auto_spec_u64_to_from_le_bytes();
    wire::lemma_offsets(m);
    wire::lemma_metadata_len(m);
    let h = wire::metadata_bytes(m);
    let b = alloc_record(m, stack);
    assert(b.subrange(0, 8) =~= h.subrange(0, 8));
    assert(b.subrange(16, 24) =~= h.subrange(16, 24));
    assert(b.subrange(24, 32) =~= h.subrange(24, 32));
    assert(b.subrange(32, 40) =~= h.subrange(32, 40));
    let regs = wire::register_data(m.registers);
    assert(h.subrange(48, 320) == regs);
    assert(b.subrange(48, 56) =~= regs.subrange(0, 8));
    assert(regs.subrange(0, 8) =~= spec_u64_to_le_bytes(m.registers.pc));
    assert(b.subrange(56, 64) =~= regs.subrange(8, 16));
    assert(regs.subrange(8, 16) =~= spec_u64_to_le_bytes(m.registers.lr));
    assert(b.subrange(64, 72) =~= regs.subrange(16, 24));
    assert(regs.subrange(16, 24) =~= spec_u64_to_le_bytes(m.registers.fp));
    assert(b.skip(ALLOC_METADATA_BYTES as int) =~= stack + wire::zeros(
        (STACK_SNAPSHOT_BYTES - stack.len()) as nat,
    ));
}

/// The entries of a batch, as they stand in its record.
pub open spec fn entry_bytes(entries: Seq<(u64, u64)>) -> Seq<u8>
    decreases entries.len(),
{
    if entries.len() == 0 {
        Seq::empty()
    } else {
        entry_bytes(entries.drop_last()) + spec_u64_to_le_bytes(entries.last().0)
            + spec_u64_to_le_bytes(entries.last().1)
    }
}

/// The record of a batch of frees: the mark, how many there are, and for each its
/// sequence number and address.
pub open spec fn free_record(entries: Seq<(u64, u64)>) -> Seq<u8> {
    spec_u64_to_le_bytes(FREE_BATCH_MAGIC) + spec_u64_to_le_bytes(entries.len() as u64)
        + entry_bytes(entries)
}

fn encode_free_record(entries: &Vec<(u64, u64)>) -> (v: Vec<u8>)
    ensures
        v@ == free_record(entries@),
{
    let mut v = u64_to_le_bytes(FREE_BATCH_MAGIC);
    let n = u64_to_le_bytes(entries.len() as u64);
    append_bytes(&mut v, n.as_slice());
    let ghost head = v@;
    let mut i: usize = 0;
    assert(entries@.take(0) =~= Seq::empty());
    assert(head + entry_bytes(entries@.take(0)) =~= head);
    while i < entries.len()
        invariant
            i <= entries@.len(),
            v@ == head + entry_bytes(entries@.take(i as int)),
        decreases entries@.len() - i,
    {
        let e = entries[i];
        let a = u64_to_le_bytes(e.0);
        let b = u64_to_le_bytes(e.1);
        append_bytes(&mut v, a.as_slice());
        append_bytes(&mut v, b.as_slice());
        i += 1;
        assert(entries@.take(i as int).drop_last() =~= entries@.take(i - 1));
        assert(v@ =~= head + entry_bytes(entries@.take(i as int)));
    }
    assert(entries@.take(i as int) =~= entries@);
    v
}

proof fn lemma_entries(entries: Seq<(u64, u64)>, i: int)
    requires
        0 <= i < entries.len(),
    ensures
        entry_bytes(entries).len() == 16 * entries.len(),
        entry_bytes(entries).subrange(16 * i, 16 * i + 8) == spec_u64_to_le_bytes(entries[i].0),
        entry_bytes(entries).subrange(16 * i + 8, 16 * i + 16) == spec_u64_to_le_bytes(
            entries[i].1,
        ),
    decreases entries.len(),
{
    lemma_auto_spec_u64_to_from_le_bytes();
    let front = entries.drop_last();
    let b = entry_bytes(entries);
    lemma_entries_len(front);
    if i < front.len() {
        lemma_entries(front, i);
        let f = entry_bytes(front);
        assert(b.subrange(16 * i, 16 * i + 8) =~= f.subrange(16 * i, 16 * i + 8));
        assert(b.subrange(16 * i + 8, 16 * i + 16) =~= f.subrange(16 * i + 8, 16 * i + 16));
    } else {
        assert(b.subrange(16 * i, 16 * i + 8) =~= spec_u64_to_le_bytes(entries[i].0));
        assert(b.subrange(16 * i + 8, 16 * i + 16) =~= spec_u64_to_le_bytes(entries[i].1));
    }
}

proof fn lemma_entries_len(entries: Seq<(u64, u64)>)
    ensures
        entry_bytes(entries).len() == 16 * entries.len(),
    decreases entries.len(),
{
    lemma_auto_spec_u64_to_from_le_bytes();
    if entries.len() > 0 {
        lemma_entries_len(entries.drop_last());
    }
}

/// The recorder reads of a batch the frees that the preload wrote, in their order.
pub proof fn lemma_frees_read_back(
    entries: Seq<(u64, u64)>,
    r: macos_heap_capture::HeapRecord,
)
    requires
        entries.len() <= u64::MAX,
        macos_heap_capture::is_record(free_record(entries), r),
    ensures
        r matches macos_heap_capture::HeapRecord::Frees(v) && v@ == entries,
{
    lemma_auto_spec_u64_to_from_le_bytes();
    lemma_entries_len(entries);
    let b = free_record(entries);
    let body = entry_bytes(entries);
    assert(b.subrange(0, 8) =~= spec_u64_to_le_bytes(FREE_BATCH_MAGIC));
    assert(b.subrange(8, 16) =~= spec_u64_to_le_bytes(entries.len() as u64));
    assert(macos_heap_capture::is_free_batch(b));
    assert(macos_heap_capture::free_count(b) == entries.len());
    assert forall|i: int| 0 <= i < entries.len() implies macos_heap_capture::frees(b)[i]
        == entries[i] by {
        lemma_entries(entries, i);
        assert(b.subrange(16 + i * 16, 16 + i * 16 + 8) =~= body.subrange(16 * i, 16 * i + 8));
        assert(b.subrange(24 + i * 16, 24 + i * 16 + 8) =~= body.subrange(16 * i + 8, 16 * i + 16));
        assert(bytes::le_u64(b, 16 + i * 16) == entries[i].0);
        assert(bytes::le_u64(b, 24 + i * 16) == entries[i].1);
    }
    assert(macos_heap_capture::frees(b) =~= entries);
}

/// The frees of one thread that were not written yet.
pub struct FreeBatch {
    pub first_ns: u64,
    pub gen: u64,
    pub entries: Vec<(u64, u64)>,
}

/// The entries that are still of use in session `gen`: those of an earlier one are
/// dropped.
pub open spec fn current(b: FreeBatch, gen: u64) -> Seq<(u64, u64)> {
    if b.gen == gen {
        b.entries@
    } else {
        Seq::empty()
    }
}

impl FreeBatch {
    pub fn new() -> (b: Self)
        ensures
            b.first_ns == 0,
            b.gen == 0,
            b.entries@.len() == 0,
    {
        FreeBatch { first_ns: 0, gen: 0, entries: Vec::new() }
    }

    /// Queue a free. The record of the whole batch, which is then empty, where it
    /// is full or its first entry is old.
    pub fn queue_free(&mut self, cap: usize, gen: u64, seq: u64, addr: u64, now_ns: u64) -> (r:
        Option<Vec<u8>>)
        requires
            cap >= 1,
            old(self).entries@.len() < cap,
        ensures
            final(self).gen == gen,
            final(self).entries@.len() < cap,
            ({
                let all = current(*old(self), gen).push((seq, addr));
                let first = if all.len() == 1 {
                    now_ns
                } else {
                    old(self).first_ns
                };
                let full = all.len() >= cap || now_ns - first > FLUSH_AGE_NS;
                &&& final(self).first_ns == first
                &&& r is Some <==> full
                &&& r matches Some(v) ==> v@ == free_record(all)
                &&& final(self).entries@ == (if full {
                    Seq::empty()
                } else {
                    all
                })
            }),
    {
        if self.gen != gen {
            self.entries = Vec::new();
            self.gen = gen;
        }
        self.entries.push((seq, addr));
        if self.entries.len() == 1 {
            self.first_ns = now_ns;
        }
        let old_enough: bool = now_ns > self.first_ns && now_ns - self.first_ns > FLUSH_AGE_NS;
        if self.entries.len() >= cap || old_enough {
            let v = encode_free_record(&self.entries);
            self.entries = Vec::new();
            return Some(v);
        }
        None
    }
}

/// The state that all threads of the target share.
#[derive(Clone, Copy, PartialEq, Eq, Structural, Debug)]
pub struct Session {
    pub enabled: bool,
    pub seq: u64,
    pub sampling_interval: u64,
    pub gen: u64,
    pub emitted: u64,
    pub dropped: u64,
}

impl Session {
    pub fn new() -> (s: Self)
        ensures
            s == (Session {
                enabled: false,
                seq: 1,
                sampling_interval: 4096,
                gen: 0,
                emitted: 0,
                dropped: 0,
            }),
    {
        Session { enabled: false, seq: 1, sampling_interval: 4096, gen: 0, emitted: 0, dropped: 0 }
    }

    /// A recorder attached: the counts start anew, and each thread starts over. An
    /// interval of 0 samples every byte.
    pub fn attach(&mut self, sample_interval: u64)
        ensures
            *final(self) == (Session {
                enabled: true,
                seq: 1,
                sampling_interval: if sample_interval == 0 {
                    1
                } else {
                    sample_interval
                },
                gen: vstd::wrapping::u64_specs::wrapping_add(old(self).gen, 1),
                emitted: 0,
                dropped: 0,
            }),
    {
        self.seq = 1;
        self.emitted = 0;
        self.dropped = 0;
        self.sampling_interval = if sample_interval == 0 {
            1
        } else {
            sample_interval
        };
        self.gen = self.gen.wrapping_add(1);
        self.enabled = true;
    }

    pub fn detach(&mut self)
        ensures
            *final(self) == (Session { enabled: false, ..*old(self) }),
    {
        self.enabled = false;
    }

    /// The next sequence number, which allocations and frees share.
    pub fn next_seq(&mut self) -> (s: u64)
        ensures
            s == old(self).seq,
            *final(self) == (Session {
                seq: vstd::wrapping::u64_specs::wrapping_add(old(self).seq, 1),
                ..*old(self)
            }),
    {
        let s: u64 = self.seq;
        self.seq = s.wrapping_add(1);
        s
    }

    /// Count a record: it was written, or there was no room for it.
    pub fn count(&mut self, written: bool)
        ensures
            *final(self) == (if written {
                Session {
                    emitted: vstd::wrapping::u64_specs::wrapping_add(old(self).emitted, 1),
                    ..*old(self)
                }
            } else {
                Session {
                    dropped: vstd::wrapping::u64_specs::wrapping_add(old(self).dropped, 1),
                    ..*old(self)
                }
            }),
    {
        if written {
            self.emitted = self.emitted.wrapping_add(1);
        } else {
            self.dropped = self.dropped.wrapping_add(1);
        }
    }
}

/// Whether a target that was told to wait for the recorder goes on waiting.
pub fn keeps_waiting(enabled: bool, waited_ms: u64) -> (r: bool)
    ensures
        r == (!enabled && waited_ms < WAIT_ATTACH_MAX_MS),
{
    !enabled && waited_ms < WAIT_ATTACH_MAX_MS
}

/// A realloc is a free of the old address and an allocation of the new size; of a null
/// address it is the allocation alone. A calloc asks for the whole of its members, as far
/// as a size can say it. Nothing but a free and a realloc gives an address back, and only
/// a free asks for none.
#[verifier::spinoff_prover]
#[verifier::rlimit(40)]
pub proof fn lemma_calls(ptr: u64, nmemb: u64, size: u64)
    ensures
        plan_of(AllocatorCall::Realloc { ptr, size }, true, false).frees == plan_of(
            AllocatorCall::Free { ptr },
            true,
            false,
        ).frees,
        plan_of(AllocatorCall::Realloc { ptr, size }, true, false).samples == plan_of(
            AllocatorCall::Malloc { size },
            true,
            false,
        ).samples,
        ptr != 0 ==> plan_of(AllocatorCall::Free { ptr }, true, false).frees == Some(ptr),
        ptr == 0 ==> plan_of(AllocatorCall::Free { ptr }, true, false).frees is None,
        plan_of(AllocatorCall::Free { ptr }, true, false).samples is None,
        plan_of(AllocatorCall::Malloc { size }, true, false).samples == Some(size),
        plan_of(AllocatorCall::Valloc { size }, true, false).samples == Some(size),
        plan_of(AllocatorCall::AlignedAlloc { size }, true, false).samples == Some(size),
        plan_of(AllocatorCall::PosixMemalign { size }, true, false).samples == Some(size),
        plan_of(AllocatorCall::Malloc { size }, true, false).frees is None,
        plan_of(AllocatorCall::Calloc { nmemb, size }, true, false).frees is None,
        plan_of(AllocatorCall::Valloc { size }, true, false).frees is None,
        plan_of(AllocatorCall::AlignedAlloc { size }, true, false).frees is None,
        plan_of(AllocatorCall::PosixMemalign { size }, true, false).frees is None,
        nmemb * size <= u64::MAX ==> plan_of(
            AllocatorCall::Calloc { nmemb, size },
            true,
            false,
        ).samples == Some((nmemb * size) as u64),
        nmemb * size > u64::MAX ==> plan_of(
            AllocatorCall::Calloc { nmemb, size },
            true,
            false,
        ).samples == Some(u64::MAX),
{
}

/// The frame that a called function pushed is read back: the caller's frame pointer, then
/// the address to return to, and the caller's stack behind them.
pub proof fn lemma_frame_read_back(
    before: Seq<u64>,
    caller_fp: u64,
    return_address: u64,
    rest: Seq<u64>,
    base: u64,
)
    requires
        base + 8 * before.len() + 16 <= u64::MAX,
    ensures
        ({
            let fp = (base + 8 * before.len()) as u64;
            let words = before + seq![caller_fp, return_address] + rest;
            frame_at(words, base, fp) == Some(
                (
                    (fp + 16) as u64,
                    RegBlockArm64 {
                        pc: return_address,
                        lr: return_address,
                        fp: caller_fp,
                        _padding: 0,
                    },
                ),
            )
        }),
{
    let n = before.len() as int;
    let words = before + seq![caller_fp, return_address] + rest;
    assert(words[n] == caller_fp);
    assert(words[n + 1] == return_address);
    assert((8 * n) / 8 == n && (8 * n) % 8 == 0);
}

/// Of the stack all that is above the stack pointer is copied where it fits, and as much as
/// fits where it does not.
pub proof fn lemma_snapshot_len(stack_top: u64, sp: u64)
    ensures
        stack_top <= sp ==> snapshot(stack_top, sp) == 0,
        sp <= stack_top <= sp + 8192 ==> sp + snapshot(stack_top, sp) == stack_top,
        stack_top > sp + 8192 ==> snapshot(stack_top, sp) == 8192,
{
}

} // verus!
