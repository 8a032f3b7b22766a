//! The record of an allocation, as it stands in the ring: a header, whose layout
//! the recorder reads at fixed offsets, and a snapshot of the stack.

use crate::bytes::append_bytes;
use vstd::bytes::*;
use vstd::prelude::*;

verus! {

/// The room for a block of registers.
pub const MAX_REGISTER_DATA_BYTES: usize = 272;

/// How much of the stack is copied.
pub const STACK_SNAPSHOT_BYTES: usize = 8_192;

pub const ALLOC_METADATA_BYTES: usize = 328;

pub const OFF_SEQUENCE_NUMBER: usize = 0;

pub const OFF_ALLOC_SIZE: usize = 8;

pub const OFF_SAMPLE_SIZE: usize = 16;

pub const OFF_ALLOC_ADDRESS: usize = 24;

pub const OFF_STACK_POINTER: usize = 32;

pub const OFF_CLOCK: usize = 40;

pub const OFF_REGISTER_DATA: usize = 48;

pub const OFF_HEAP_ID: usize = 320;

pub const OFF_ARCH: usize = 324;

/// The architectures of a target.
#[derive(Clone, Copy, PartialEq, Eq, Structural, Debug)]
pub enum Arch {
    Unknown,
    Arm64,
    X86_64,
    Arm,
    Riscv64,
    Arm64e,
}

impl Arch {
    pub open spec fn tag(self) -> u32 {
        match self {
            Arch::Unknown => 0,
            Arch::Arm64 => 1,
            Arch::X86_64 => 2,
            Arch::Arm => 3,
            Arch::Riscv64 => 4,
            Arch::Arm64e => 5,
        }
    }

    /// How the record names the architecture.
    pub fn number(self) -> (n: u32)
        ensures
            n == self.tag(),
    {
        match self {
            Arch::Unknown => 0,
            Arch::Arm64 => 1,
            Arch::X86_64 => 2,
            Arch::Arm => 3,
            Arch::Riscv64 => 4,
            Arch::Arm64e => 5,
        }
    }
}

/// The registers that a stack is walked from.
#[derive(Clone, Copy, PartialEq, Eq, Structural, Debug)]
pub struct RegBlockArm64 {
    pub pc: u64,
    pub lr: u64,
    pub fp: u64,
    pub _padding: u64,
}

/// The header of an allocation's record.
#[derive(Clone, Copy, PartialEq, Eq, Structural, Debug)]
pub struct AllocMetadata {
    pub sequence_number: u64,
    pub alloc_size: u64,
    pub sample_size: u64,
    pub alloc_address: u64,
    pub stack_pointer: u64,
    pub clock_monotonic_coarse_ts: u64,
    pub registers: RegBlockArm64,
    pub heap_id: u32,
    pub arch: Arch,
}

pub open spec fn zeros(n: nat) -> Seq<u8> {
    Seq::new(n, |i: int| 0u8)
}

/// A block of registers, filled up with zeros.
pub open spec fn register_data(r: RegBlockArm64) -> Seq<u8> {
    spec_u64_to_le_bytes(r.pc) + spec_u64_to_le_bytes(r.lr) + spec_u64_to_le_bytes(r.fp)
        + spec_u64_to_le_bytes(r._padding) + zeros(240)
}

/// The bytes of a header.
pub open spec fn metadata_bytes(m: AllocMetadata) -> Seq<u8> {
    spec_u64_to_le_bytes(m.sequence_number) + spec_u64_to_le_bytes(m.alloc_size)
        + spec_u64_to_le_bytes(m.sample_size) + spec_u64_to_le_bytes(m.alloc_address)
        + spec_u64_to_le_bytes(m.stack_pointer) + spec_u64_to_le_bytes(m.clock_monotonic_coarse_ts)
        + register_data(m.registers) + spec_u32_to_le_bytes(m.heap_id) + spec_u32_to_le_bytes(
        m.arch.tag(),
    )
}

fn append_u64(v: &mut Vec<u8>, n: u64)
    ensures
        final(v)@ == old(v)@ + spec_u64_to_le_bytes(n),
{
    let b = u64_to_le_bytes(n);
    append_bytes(v, b.as_slice());
}

fn append_u32(v: &mut Vec<u8>, n: u32)
    ensures
        final(v)@ == old(v)@ + spec_u32_to_le_bytes(n),
{
    let b = u32_to_le_bytes(n);
    append_bytes(v, b.as_slice());
}

pub fn append_zeros(v: &mut Vec<u8>, n: usize)
    ensures
        final(v)@ == old(v)@ + zeros(n as nat),
{
    let ghost head = v@;
    let mut i: usize = 0;
    assert(head + zeros(0) =~= head);
    while i < n
        invariant
            i <= n,
            v@ == head + zeros(i as nat),
        decreases n - i,
    {
        v.push(0);
        i += 1;
        assert(v@ =~= head + zeros(i as nat));
    }
}

/// The bytes of a header.
pub fn encode_metadata(m: &AllocMetadata) -> (v: Vec<u8>)
    ensures
        v@ == metadata_bytes(*m),
        v@.len() == ALLOC_METADATA_BYTES,
{
    let mut v: Vec<u8> = Vec::new();
    append_u64(&mut v, m.sequence_number);
    append_u64(&mut v, m.alloc_size);
    append_u64(&mut v, m.sample_size);
    append_u64(&mut v, m.alloc_address);
    append_u64(&mut v, m.stack_pointer);
    append_u64(&mut v, m.clock_monotonic_coarse_ts);
    append_u64(&mut v, m.registers.pc);
    append_u64(&mut v, m.registers.lr);
    append_u64(&mut v, m.registers.fp);
    append_u64(&mut v, m.registers._padding);
    append_zeros(&mut v, 240);
    append_u32(&mut v, m.heap_id);
    append_u32(&mut v, m.arch.number());
    assert(v@ =~= metadata_bytes(*m));
    proof {
        lemma_metadata_len(*m);
    }
    v
}

pub proof fn lemma_metadata_len(m: AllocMetadata)
    ensures
        metadata_bytes(m).len() == ALLOC_METADATA_BYTES,
        register_data(m.registers).len() == MAX_REGISTER_DATA_BYTES,
{
    lemma_auto_spec_u64_to_from_le_bytes();
    lemma_auto_spec_u32_to_from_le_bytes();
}

/// Each field stands at its offset.
pub proof fn lemma_offsets(m: AllocMetadata)
    ensures
        ({
            let b = metadata_bytes(m);
            &&& b.subrange(OFF_SEQUENCE_NUMBER as int, 8) == spec_u64_to_le_bytes(m.sequence_number)
            &&& b.subrange(OFF_ALLOC_SIZE as int, 16) == spec_u64_to_le_bytes(m.alloc_size)
            &&& b.subrange(OFF_SAMPLE_SIZE as int, 24) == spec_u64_to_le_bytes(m.sample_size)
            &&& b.subrange(OFF_ALLOC_ADDRESS as int, 32) == spec_u64_to_le_bytes(m.alloc_address)
            &&& b.subrange(OFF_STACK_POINTER as int, 40) == spec_u64_to_le_bytes(m.stack_pointer)
            &&& b.subrange(OFF_CLOCK as int, 48) == spec_u64_to_le_bytes(
                m.clock_monotonic_coarse_ts,
            )
            &&& b.subrange(OFF_REGISTER_DATA as int, 320) == register_data(m.registers)
            &&& b.subrange(OFF_HEAP_ID as int, 324) == spec_u32_to_le_bytes(m.heap_id)
            &&& b.subrange(OFF_ARCH as int, 328) == spec_u32_to_le_bytes(m.arch.tag())
        }),
{
    lemma_auto_spec_u64_to_from_le_bytes();
    lemma_auto_spec_u32_to_from_le_bytes();
    let b = metadata_bytes(m);
    assert(b.subrange(0, 8) =~= spec_u64_to_le_bytes(m.sequence_number));
    assert(b.subrange(8, 16) =~= spec_u64_to_le_bytes(m.alloc_size));
    assert(b.subrange(16, 24) =~= spec_u64_to_le_bytes(m.sample_size));
    assert(b.subrange(24, 32) =~= spec_u64_to_le_bytes(m.alloc_address));
    assert(b.subrange(32, 40) =~= spec_u64_to_le_bytes(m.stack_pointer));
    assert(b.subrange(40, 48) =~= spec_u64_to_le_bytes(m.clock_monotonic_coarse_ts));
    assert(b.subrange(48, 320) =~= register_data(m.registers));
    assert(b.subrange(320, 324) =~= spec_u32_to_le_bytes(m.heap_id));
    assert(b.subrange(324, 328) =~= spec_u32_to_le_bytes(m.arch.tag()));
}

} // verus!
