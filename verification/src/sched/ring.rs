//! The records of the kernel's trace ring, and what its consumers share.

use crate::bytes;
use crate::bytes::{bytes_before, read_le_u32, read_le_u64, u32_as_i32};
use vstd::prelude::*;
use vstd::slice::slice_subrange;

verus! {

pub const KD_EVENT_BYTES: usize = 64;

pub const KD_THREADMAP_BYTES: usize = 32;

pub const KD_COMMAND_BYTES: usize = 20;

/// A record of the ring. `arg5` is the thread that ran when it was logged.
#[derive(Clone, Copy, PartialEq, Eq, Structural, Debug)]
pub struct KdEvent {
    pub timestamp: u64,
    pub arg1: u64,
    pub arg2: u64,
    pub arg3: u64,
    pub arg4: u64,
    pub arg5: u64,
    pub debugid: u32,
    pub cpuid: u32,
    pub unused: u64,
}

/// A debug id has a class, a subclass and a code: 8, 8 and 14 bits, above two bits
/// that mark a start or an end.
pub open spec fn class_of(debugid: u32) -> u32 {
    debugid / 0x100_0000
}

pub open spec fn subclass_of(debugid: u32) -> u32 {
    debugid / 0x1_0000 % 0x100
}

pub open spec fn code_of(debugid: u32) -> u32 {
    debugid % 0x1_0000 / 4
}

/// Class and subclass together.
pub open spec fn csc_of(debugid: u32) -> u32 {
    debugid / 0x1_0000
}

impl KdEvent {
    /// A record of zeros.
    pub fn zero() -> (e: Self)
        ensures
            e == (KdEvent {
                timestamp: 0,
                arg1: 0,
                arg2: 0,
                arg3: 0,
                arg4: 0,
                arg5: 0,
                debugid: 0,
                cpuid: 0,
                unused: 0,
            }),
    {
        KdEvent {
            timestamp: 0,
            arg1: 0,
            arg2: 0,
            arg3: 0,
            arg4: 0,
            arg5: 0,
            debugid: 0,
            cpuid: 0,
            unused: 0,
        }
    }

    /// The event's code.
    pub fn code(&self) -> (c: u32)
        ensures
            c == code_of(self.debugid),
    {
        self.debugid % 0x1_0000 / 4
    }

    pub fn class(&self) -> (c: u32)
        ensures
            c == class_of(self.debugid),
    {
        self.debugid / 0x100_0000
    }

    pub fn subclass(&self) -> (c: u32)
        ensures
            c == subclass_of(self.debugid),
    {
        self.debugid / 0x1_0000 % 0x100
    }

    /// Class and subclass together.
    pub fn csc(&self) -> (c: u16)
        ensures
            c == csc_of(self.debugid),
    {
        (self.debugid / 0x1_0000) as u16
    }
}

/// The code is what the kernel's mask and shift give.
pub proof fn lemma_code_is_masked(debugid: u32)
    ensures
        code_of(debugid) == (debugid & 0xfffc) >> 2,
        csc_of(debugid) == (debugid >> 16) & 0xffff,
        class_of(debugid) == (debugid >> 24) & 0xff,
        subclass_of(debugid) == (debugid >> 16) & 0xff,
{
    assert(debugid % 0x1_0000 / 4 == (debugid & 0xfffc) >> 2) by (bit_vector);
    assert(debugid / 0x1_0000 == (debugid >> 16) & 0xffff) by (bit_vector);
    assert(debugid / 0x100_0000 == (debugid >> 24) & 0xff) by (bit_vector);
    assert(debugid / 0x1_0000 % 0x100 == (debugid >> 16) & 0xff) by (bit_vector);
}

/// The record at byte `off`.
pub open spec fn event_at(b: Seq<u8>, off: int) -> KdEvent {
    KdEvent {
        timestamp: bytes::le_u64(b, off),
        arg1: bytes::le_u64(b, off + 8),
        arg2: bytes::le_u64(b, off + 16),
        arg3: bytes::le_u64(b, off + 24),
        arg4: bytes::le_u64(b, off + 32),
        arg5: bytes::le_u64(b, off + 40),
        debugid: bytes::le_u32(b, off + 48),
        cpuid: bytes::le_u32(b, off + 52),
        unused: bytes::le_u64(b, off + 56),
    }
}

fn read_event(b: &[u8], off: usize) -> (e: KdEvent)
    requires
        off + KD_EVENT_BYTES <= b@.len(),
    ensures
        e == event_at(b@, off as int),
{
    assert(off + 64 <= b.len());
    KdEvent {
        timestamp: read_le_u64(b, off),
        arg1: read_le_u64(b, off + 8),
        arg2: read_le_u64(b, off + 16),
        arg3: read_le_u64(b, off + 24),
        arg4: read_le_u64(b, off + 32),
        arg5: read_le_u64(b, off + 40),
        debugid: read_le_u32(b, off + 48),
        cpuid: read_le_u32(b, off + 52),
        unused: read_le_u64(b, off + 56),
    }
}

/// How many of `n` records of `size` bytes a buffer holds.
pub open spec fn held(len: nat, n: nat, size: nat) -> nat {
    if n < len / size {
        n
    } else {
        len / size
    }
}

/// The first `n` records of a buffer, as far as it holds them.
pub fn decode_events(b: &[u8], n: usize) -> (r: Vec<KdEvent>)
    ensures
        r@ == Seq::new(
            held(b@.len(), n as nat, KD_EVENT_BYTES as nat),
            |i: int| event_at(b@, i * 64),
        ),
{
    let len: usize = b.len();
    let have: usize = len / KD_EVENT_BYTES;
    let count: usize = if n < have {
        n
    } else {
        have
    };
    let mut r: Vec<KdEvent> = Vec::new();
    let mut i: usize = 0;
    while i < count
        invariant
            i <= count,
            count * 64 <= len,
            len == b@.len(),
            r@ == Seq::new(i as nat, |j: int| event_at(b@, j * 64)),
        decreases count - i,
    {
        r.push(read_event(b, i * KD_EVENT_BYTES));
        i += 1;
        assert(r@ =~= Seq::new(i as nat, |j: int| event_at(b@, j * 64)));
    }
    r
}

/// An entry of the thread map: which process a thread belongs to, and its name.
#[derive(Clone, Copy)]
pub struct KdThreadMap {
    pub thread: u64,
    pub pid: i32,
    pub command: [u8; 20],
}

impl KdThreadMap {
    /// An entry of zeros.
    pub fn zero() -> (t: Self)
        ensures
            t.thread == 0,
            t.pid == 0,
            forall|i: int| 0 <= i < 20 ==> t.command@[i] == 0,
    {
        KdThreadMap { thread: 0, pid: 0, command: [0u8; 20] }
    }

    pub open spec fn name(self) -> Seq<u8> {
        bytes::before(self.command@, 0)
    }

    /// The name, up to its NUL.
    pub fn command_bytes(&self) -> (r: Vec<u8>)
        ensures
            r@ == self.name(),
    {
        bytes_before(self.command.as_slice(), 0)
    }
}

/// Whether `t` is the entry at byte `off`.
pub open spec fn is_thread_at(b: Seq<u8>, off: int, t: KdThreadMap) -> bool {
    &&& t.thread == bytes::le_u64(b, off)
    &&& t.pid == bytes::bits_to_i32(bytes::le_u32(b, off + 8) as int)
    &&& t.command@ == b.subrange(off + 12, off + 32)
}

fn read_thread(b: &[u8], off: usize) -> (t: KdThreadMap)
    requires
        off + KD_THREADMAP_BYTES <= b@.len(),
    ensures
        is_thread_at(b@, off as int, t),
{
    assert(off + 32 <= b.len());
    let name = slice_subrange(b, off + 12, off + 32);
    let mut command: [u8; 20] = [0u8; 20];
    let mut i: usize = 0;
    while i < 20
        invariant
            i <= 20,
            name@.len() == 20,
            forall|j: int| 0 <= j < i ==> command@[j] == name@[j],
        decreases 20 - i,
    {
        command[i] = name[i];
        i += 1;
    }
    assert(command@ =~= b@.subrange(off + 12, off + 32));
    KdThreadMap { thread: read_le_u64(b, off), pid: u32_as_i32(read_le_u32(b, off + 8)), command }
}

/// The first `n` entries of a thread map, as far as the buffer holds them.
pub fn decode_thread_map(b: &[u8], n: usize) -> (r: Vec<KdThreadMap>)
    ensures
        r@.len() == held(b@.len(), n as nat, KD_THREADMAP_BYTES as nat),
        forall|i: int| 0 <= i < r@.len() ==> is_thread_at(b@, i * 32, #[trigger] r@[i]),
{
    let len: usize = b.len();
    let have: usize = len / KD_THREADMAP_BYTES;
    let count: usize = if n < have {
        n
    } else {
        have
    };
    let mut r: Vec<KdThreadMap> = Vec::new();
    let mut i: usize = 0;
    while i < count
        invariant
            i <= count,
            count * 32 <= len,
            len == b@.len(),
            r@.len() == i,
            forall|j: int| 0 <= j < i ==> is_thread_at(b@, j * 32, #[trigger] r@[j]),
        decreases count - i,
    {
        r.push(read_thread(b, i * KD_THREADMAP_BYTES));
        i += 1;
    }
    r
}

/// The control block of a consumer's data source.
#[derive(Clone, Copy, PartialEq, Eq, Structural, Debug)]
pub struct ConsumerCtl {
    /// The slot of the data source; the largest number until it was registered.
    pub ds_slot: u32,
    /// True between the start and the stop.
    pub running: bool,
    /// The handle of the stop that is to be acknowledged; 0 for none.
    pub pending_stopper: u64,
    /// What the consumer counts.
    pub samples: u64,
}

impl ConsumerCtl {
    pub fn new() -> (c: Self)
        ensures
            c == (ConsumerCtl { ds_slot: u32::MAX, running: false, pending_stopper: 0, samples: 0 }),
    {
        ConsumerCtl { ds_slot: u32::MAX, running: false, pending_stopper: 0, samples: 0 }
    }

    pub fn start(&mut self)
        ensures
            *final(self) == (ConsumerCtl { running: true, ..*old(self) }),
    {
        self.running = true;
    }

    /// Keep the handle of a stop; one without a handle is passed over.
    pub fn stop(&mut self, stopper: u64)
        ensures
            *final(self) == (if stopper != 0 {
                ConsumerCtl { pending_stopper: stopper, ..*old(self) }
            } else {
                *old(self)
            }),
    {
        if stopper != 0 {
            self.pending_stopper = stopper;
        }
    }

    pub fn count(&mut self, n: u64)
        ensures
            *final(self) == (ConsumerCtl {
                samples: vstd::wrapping::u64_specs::wrapping_add(old(self).samples, n),
                ..*old(self)
            }),
    {
        self.samples = self.samples.wrapping_add(n);
    }
}

impl Default for ConsumerCtl {
    fn default() -> (c: Self)
        ensures
            c == (ConsumerCtl { ds_slot: u32::MAX, running: false, pending_stopper: 0, samples: 0 }),
    {
        ConsumerCtl::new()
    }
}

/// A consumer of the ring.
pub trait RingConsumer {
    /// The ranges of class and subclass, both ends in, that the consumer needs.
    spec fn ranges(&self) -> Seq<(u16, u16)>;

    fn csc_ranges(&self) -> (r: Vec<(u16, u16)>)
        ensures
            r@ == self.ranges(),
    ;
}

/// The bytes of a record: its time, its arguments, its debug id, its CPU and a word that
/// is not used.
pub open spec fn event_bytes(e: KdEvent) -> Seq<u8> {
    bytes::words64(seq![e.timestamp, e.arg1, e.arg2, e.arg3, e.arg4, e.arg5]) + bytes::words32(
        seq![e.debugid, e.cpuid],
    ) + bytes::words64(seq![e.unused])
}

/// A record that was written is read back, wherever it stands.
#[verifier::spinoff_prover]
#[verifier::rlimit(40)]
pub proof fn lemma_event_read_back(before: Seq<u8>, e: KdEvent, rest: Seq<u8>)
    ensures
        event_bytes(e).len() == 64,
        event_at(before + event_bytes(e) + rest, before.len() as int) == e,
{
    let off = before.len() as int;
    let args = seq![e.timestamp, e.arg1, e.arg2, e.arg3, e.arg4, e.arg5];
    let ids = seq![e.debugid, e.cpuid];
    let a = bytes::words64(args);
    let c = bytes::words32(ids);
    let d = bytes::words64(seq![e.unused]);
    bytes::lemma_words64_read_back(args);
    bytes::lemma_words32_read_back(ids);
    bytes::lemma_words64_read_back(seq![e.unused]);
    let b = before + event_bytes(e) + rest;
    assert(b.subrange(off, off + 48) =~= a);
    assert(b.subrange(off + 48, off + 56) =~= c);
    assert(b.subrange(off + 56, off + 64) =~= d);
    bytes::lemma_numbers_in_part(b, off, a);
    bytes::lemma_numbers_in_part(b, off + 48, c);
    bytes::lemma_numbers_in_part(b, off + 56, d);
    assert(bytes::le_u64(a, 8 * 0int) == args[0] && bytes::le_u64(b, off + 8 * 0int) == args[0]);
    assert(bytes::le_u64(a, 8 * 1int) == args[1] && bytes::le_u64(b, off + 8 * 1int) == args[1]);
    assert(bytes::le_u64(a, 8 * 2int) == args[2] && bytes::le_u64(b, off + 8 * 2int) == args[2]);
    assert(bytes::le_u64(a, 8 * 3int) == args[3] && bytes::le_u64(b, off + 8 * 3int) == args[3]);
    assert(bytes::le_u64(a, 8 * 4int) == args[4] && bytes::le_u64(b, off + 8 * 4int) == args[4]);
    assert(bytes::le_u64(a, 8 * 5int) == args[5] && bytes::le_u64(b, off + 8 * 5int) == args[5]);
    assert(bytes::le_u32(c, 4 * 0int) == ids[0] && bytes::le_u32(b, off + 48 + 4 * 0int)
        == ids[0]);
    assert(bytes::le_u32(c, 4 * 1int) == ids[1] && bytes::le_u32(b, off + 48 + 4 * 1int)
        == ids[1]);
    assert(bytes::le_u64(d, 8 * 0int) == e.unused && bytes::le_u64(b, off + 56 + 8 * 0int)
        == e.unused);
}

/// An entry of the thread map that was written is read back: the thread, the process and
/// the name with its padding.
pub proof fn lemma_thread_read_back(
    before: Seq<u8>,
    thread: u64,
    pid: u32,
    command: Seq<u8>,
    rest: Seq<u8>,
    t: KdThreadMap,
)
    requires
        command.len() == 20,
        is_thread_at(
            before + bytes::words64(seq![thread]) + bytes::words32(seq![pid]) + command + rest,
            before.len() as int,
            t,
        ),
    ensures
        t.thread == thread,
        t.pid == bytes::bits_to_i32(pid as int),
        t.command@ == command,
{
    let off = before.len() as int;
    let a = bytes::words64(seq![thread]);
    let c = bytes::words32(seq![pid]);
    let b = before + a + c + command + rest;
    bytes::lemma_words64_read_back(seq![thread]);
    bytes::lemma_words32_read_back(seq![pid]);
    assert(bytes::le_u64(a, 8 * 0int) == seq![thread][0]);
    assert(bytes::le_u32(c, 4 * 0int) == seq![pid][0]);
    assert(b.subrange(off, off + 8) =~= a.subrange(0, 8));
    assert(b.subrange(off + 8, off + 12) =~= c.subrange(0, 4));
    assert(b.subrange(off + 12, off + 32) =~= command);
}

/// The name of a thread is what stands before its first NUL.
pub proof fn lemma_name_ends(t: KdThreadMap)
    ensures
        t.name().is_prefix_of(t.command@),
        !t.name().contains(0u8),
        t.name().len() < t.command@.len() ==> t.command@[t.name().len() as int] == 0,
{
    bytes::lemma_index_of(t.command@, 0);
    assert(t.name() =~= t.command@.subrange(0, t.name().len() as int));
}

} // verus!
