//! The worker that profiles the heap of one process: how its set-up is resolved,
//! how the records of the ring are read, and what it reports.

use crate::bytes;
use crate::bytes::read_le_u64;
use crate::heap::book;
use crate::heap::book::HeapBook;
use crate::heap::profile::HeapSite;
use vstd::prelude::*;
use vstd::slice::{slice_subrange, slice_to_vec};

verus! {

/// Defaults for what the set-up leaves open.
pub const DEFAULT_RING_SIZE_BYTES: u64 = 16_777_216;

pub const DEFAULT_SAMPLE_INTERVAL_BYTES: u64 = 4_096;

/// How often the ring is drained while the worker runs.
pub const DRAIN_INTERVAL_NS: u64 = 1_000_000;

/// How long the worker waits after it let the target go, so that an allocation
/// that is under way is still written.
pub const DETACH_SETTLE_NS: u64 = 5_000_000;

/// How often the worker tries to attach.
pub const ATTACH_MAX_ATTEMPTS: usize = 120;

/// A drain takes this many records at most.
pub const DRAIN_MAX_RECORDS: u64 = 4_096;

pub const STACK_SNAPSHOT_BYTES: usize = 8_192;

pub const MAX_FRAMES: usize = 32;

pub const ALLOC_METADATA_BYTES: usize = 328;

pub const OFF_SEQUENCE: usize = 0;

pub const OFF_SAMPLE_SIZE: usize = 16;

pub const OFF_ALLOC_ADDRESS: usize = 24;

pub const OFF_STACK_POINTER: usize = 32;

pub const OFF_REG_PC: usize = 48;

pub const OFF_REG_LR: usize = 56;

pub const OFF_REG_FP: usize = 64;

/// What a batch of frees starts with.
pub const FREE_BATCH_MAGIC: u64 = 0x5346_5245_454e_5452;

pub const FREE_HEADER_BYTES: usize = 16;

pub const FREE_ENTRY_BYTES: usize = 16;

/// A set-up with the defaults filled in.
#[derive(Clone, Copy, PartialEq, Eq, Structural, Debug)]
pub struct HeapSetup {
    pub target_pid: u32,
    pub ring_size: u64,
    pub sample_interval: u64,
}

/// The set-up of the worker. None where it names no target, and the worker parks.
pub fn resolve_setup(target_pid: u32, ring_size: u64, sample_interval: u64) -> (r: Option<HeapSetup>)
    ensures
        r == (if target_pid == 0 {
            None
        } else {
            Some(
                HeapSetup {
                    target_pid,
                    ring_size: if ring_size != 0 {
                        ring_size
                    } else {
                        DEFAULT_RING_SIZE_BYTES
                    },
                    sample_interval: if sample_interval != 0 {
                        sample_interval
                    } else {
                        DEFAULT_SAMPLE_INTERVAL_BYTES
                    },
                },
            )
        }),
{
    if target_pid == 0 {
        return None;
    }
    let ring: u64 = if ring_size != 0 {
        ring_size
    } else {
        DEFAULT_RING_SIZE_BYTES
    };
    let interval: u64 = if sample_interval != 0 {
        sample_interval
    } else {
        DEFAULT_SAMPLE_INTERVAL_BYTES
    };
    Some(HeapSetup { target_pid, ring_size: ring, sample_interval: interval })
}

/// A sampled allocation as it stands in the ring: the registers, and the stack
/// from the stack pointer on.
pub struct AllocRecord {
    pub seq: u64,
    pub sample_size: u64,
    pub addr: u64,
    pub sp: u64,
    pub pc: u64,
    pub lr: u64,
    pub fp: u64,
    pub stack: Vec<u8>,
}

/// A record of the ring.
pub enum HeapRecord {
    Alloc(AllocRecord),
    /// The sequence number and the address of each free.
    Frees(Vec<(u64, u64)>),
    /// Neither; it is passed over.
    Other,
}

/// Whether a record is a batch of frees.
pub open spec fn is_free_batch(b: Seq<u8>) -> bool {
    b.len() >= FREE_HEADER_BYTES && bytes::le_u64(b, 0) == FREE_BATCH_MAGIC
}

/// How many frees a batch holds: as many as it says, as far as they are there.
pub open spec fn free_count(b: Seq<u8>) -> nat {
    let have = (b.len() - FREE_HEADER_BYTES) / FREE_ENTRY_BYTES as int;
    if bytes::le_u64(b, 8) < have {
        bytes::le_u64(b, 8) as nat
    } else {
        have as nat
    }
}

/// The frees of a batch.
pub open spec fn frees(b: Seq<u8>) -> Seq<(u64, u64)> {
    Seq::new(
        free_count(b),
        |i: int| (bytes::le_u64(b, 16 + i * 16), bytes::le_u64(b, 24 + i * 16)),
    )
}

/// Whether `r` is what the bytes of a record say.
pub open spec fn is_record(b: Seq<u8>, r: HeapRecord) -> bool {
    if is_free_batch(b) {
        r matches HeapRecord::Frees(v) && v@ == frees(b)
    } else if b.len() >= ALLOC_METADATA_BYTES + STACK_SNAPSHOT_BYTES {
        r matches HeapRecord::Alloc(a) && {
            &&& a.seq == bytes::le_u64(b, OFF_SEQUENCE as int)
            &&& a.sample_size == bytes::le_u64(b, OFF_SAMPLE_SIZE as int)
            &&& a.addr == bytes::le_u64(b, OFF_ALLOC_ADDRESS as int)
            &&& a.sp == bytes::le_u64(b, OFF_STACK_POINTER as int)
            &&& a.pc == bytes::le_u64(b, OFF_REG_PC as int)
            &&& a.lr == bytes::le_u64(b, OFF_REG_LR as int)
            &&& a.fp == bytes::le_u64(b, OFF_REG_FP as int)
            &&& a.stack@ == b.skip(ALLOC_METADATA_BYTES as int)
        }
    } else {
        r is Other
    }
}

/// Read the frees of a batch.
fn decode_frees(b: &[u8]) -> (v: Vec<(u64, u64)>)
    requires
        b@.len() >= FREE_HEADER_BYTES,
    ensures
        v@ == frees(b@),
{
    let num: u64 = read_le_u64(b, 8);
    let len: usize = b.len();
    let have: usize = (len - FREE_HEADER_BYTES) / FREE_ENTRY_BYTES;
    let n: usize = if num < have as u64 {
        num as usize
    } else {
        have
    };
    let mut v: Vec<(u64, u64)> = Vec::new();
    let mut i: usize = 0;
    while i < n
        invariant
            i <= n,
            n == free_count(b@),
            n * 16 + 16 <= len,
            len == b@.len(),
            v@ == frees(b@).take(i as int),
        decreases n - i,
    {
        let off: usize = FREE_HEADER_BYTES + i * FREE_ENTRY_BYTES;
        assert(off == 16 + i * 16);
        v.push((read_le_u64(b, off), read_le_u64(b, off + 8)));
        i += 1;
        assert(v@ =~= frees(b@).take(i as int));
    }
    assert(frees(b@).take(n as int) =~= frees(b@));
    v
}

/// Read a record of the ring.
pub fn decode_record(b: &[u8]) -> (r: HeapRecord)
    ensures
        is_record(b@, r),
{
    if b.len() >= FREE_HEADER_BYTES && read_le_u64(b, 0) == FREE_BATCH_MAGIC {
        return HeapRecord::Frees(decode_frees(b));
    }
    if b.len() < ALLOC_METADATA_BYTES + STACK_SNAPSHOT_BYTES {
        return HeapRecord::Other;
    }
    let stack = slice_to_vec(slice_subrange(b, ALLOC_METADATA_BYTES, b.len()));
    assert(stack@ =~= b@.skip(ALLOC_METADATA_BYTES as int));
    HeapRecord::Alloc(
        AllocRecord {
            seq: read_le_u64(b, OFF_SEQUENCE),
            sample_size: read_le_u64(b, OFF_SAMPLE_SIZE),
            addr: read_le_u64(b, OFF_ALLOC_ADDRESS),
            sp: read_le_u64(b, OFF_STACK_POINTER),
            pc: read_le_u64(b, OFF_REG_PC),
            lr: read_le_u64(b, OFF_REG_LR),
            fp: read_le_u64(b, OFF_REG_FP),
            stack,
        },
    )
}

/// The callstack that an allocation is counted at: what the unwinder walked, at
/// most [`MAX_FRAMES`] addresses; the address of the allocation where it walked
/// nothing.
pub open spec fn site_of(walked: Seq<u64>, addr: u64) -> Seq<u64> {
    if walked.len() == 0 {
        seq![addr]
    } else if walked.len() > MAX_FRAMES {
        walked.take(MAX_FRAMES as int)
    } else {
        walked
    }
}

pub fn site_pcs(walked: &[u64], addr: u64) -> (pcs: Vec<u64>)
    ensures
        pcs@ == site_of(walked@, addr),
{
    if walked.len() == 0 {
        let mut pcs: Vec<u64> = Vec::new();
        pcs.push(addr);
        assert(pcs@ =~= seq![addr]);
        return pcs;
    }
    let n: usize = if walked.len() > MAX_FRAMES {
        MAX_FRAMES
    } else {
        walked.len()
    };
    let pcs = slice_to_vec(slice_subrange(walked, 0, n));
    assert(pcs@ =~= site_of(walked@, addr));
    pcs
}

/// The book after the first `n` frees of a batch.
pub open spec fn after_frees(b: book::BookView, fs: Seq<(u64, u64)>, n: nat) -> book::BookView
    decreases n,
{
    if n == 0 {
        b
    } else {
        let f = fs[n - 1];
        book::after_free(after_frees(b, fs, (n - 1) as nat), f.0, f.1)
    }
}

/// What the worker reports when it shuts down.
#[derive(Clone, Copy, PartialEq, Eq, Structural, Debug)]
pub struct HeapStats {
    pub records: u64,
    pub bytes_alloc: u64,
    pub sites: u32,
}

/// The state of the worker: the book, and what it has counted.
pub struct HeapCapture {
    pub book: HeapBook,
    pub records: u64,
    pub bytes_alloc: u64,
    pub sites_observed: u32,
}

impl HeapCapture {
    pub fn new() -> (c: Self)
        ensures
            c.book.wf(),
            c.book@ == (book::BookView { sites: Map::empty(), live: Map::empty() }),
            c.records == 0,
            c.bytes_alloc == 0,
            c.sites_observed == 0,
    {
        HeapCapture { book: HeapBook::new(), records: 0, bytes_alloc: 0, sites_observed: 0 }
    }

    /// Whether the site of an allocation can count it.
    pub open spec fn room_for(self, a: AllocRecord, walked: Seq<u64>) -> bool {
        self.book.room_for(site_of(walked, a.addr), a.sample_size)
    }

    pub fn has_room(&self, a: &AllocRecord, walked: &[u64]) -> (r: bool)
        requires
            self.book.wf(),
        ensures
            r == self.room_for(*a, walked@),
    {
        let pcs = site_pcs(walked, a.addr);
        self.book.has_room(pcs.as_slice(), a.sample_size)
    }

    /// Count a sampled allocation, whose stack was walked.
    pub fn process_alloc(&mut self, a: &AllocRecord, walked: &[u64])
        requires
            old(self).book.wf(),
            old(self).room_for(*a, walked@),
        ensures
            final(self).book.wf(),
            final(self).book@ == book::after_alloc(
                old(self).book@,
                a.addr,
                book::LiveView {
                    seq: a.seq,
                    sample_size: a.sample_size,
                    pcs: site_of(walked@, a.addr),
                },
            ),
            final(self).records == vstd::wrapping::u64_specs::wrapping_add(old(self).records, 1),
            final(self).bytes_alloc == vstd::wrapping::u64_specs::wrapping_add(
                old(self).bytes_alloc,
                a.sample_size,
            ),
            final(self).sites_observed == old(self).sites_observed,
    {
        let pcs = site_pcs(walked, a.addr);
        self.book.apply_alloc(a.seq, a.addr, a.sample_size, pcs);
        self.records = self.records.wrapping_add(1);
        self.bytes_alloc = self.bytes_alloc.wrapping_add(a.sample_size);
    }

    /// Count the frees of a batch.
    pub fn process_frees(&mut self, fs: &Vec<(u64, u64)>)
        requires
            old(self).book.wf(),
        ensures
            final(self).book.wf(),
            final(self).book@ == after_frees(old(self).book@, fs@, fs@.len()),
            final(self).records == old(self).records,
            final(self).bytes_alloc == old(self).bytes_alloc,
            final(self).sites_observed == old(self).sites_observed,
    {
        let mut i: usize = 0;
        while i < fs.len()
            invariant
                i <= fs@.len(),
                self.book.wf(),
                self.book@ == after_frees(old(self).book@, fs@, i as nat),
                self.records == old(self).records,
                self.bytes_alloc == old(self).bytes_alloc,
                self.sites_observed == old(self).sites_observed,
            decreases fs@.len() - i,
        {
            let f = fs[i];
            self.book.apply_free(f.0, f.1);
            i += 1;
        }
    }

    /// The sites as the profile takes them, and how many there are.
    pub fn snapshot(&mut self) -> (sites: Vec<HeapSite>)
        requires
            old(self).book.wf(),
        ensures
            final(self).book == old(self).book,
            final(self).records == old(self).records,
            final(self).bytes_alloc == old(self).bytes_alloc,
            final(self).sites_observed == old(self).book@.sites.dom().len() as u32,
            sites@.len() == old(self).book.sites@.len(),
            forall|i: int|
                0 <= i < sites@.len() ==> {
                    let s = old(self).book.sites@[i];
                    &&& (#[trigger] sites@[i]).pcs@ == s.0@
                    &&& sites@[i].count == s.1.alloc_count
                    &&& sites@[i].total_size == s.1.allocated
                },
            forall|i: int|
                0 <= i < sites@.len() ==> {
                    let b = old(self).book@;
                    let pcs = (#[trigger] sites@[i]).pcs@;
                    &&& b.sites.dom().contains(pcs)
                    &&& sites@[i].total_size == b.sites[pcs].freed + book::live_sum(
                        b.live,
                        pcs,
                        false,
                    )
                    &&& sites@[i].count == b.sites[pcs].free_count + book::live_sum(
                        b.live,
                        pcs,
                        true,
                    )
                },
            forall|i: int, j: int|
                0 <= i < j < sites@.len() ==> (#[trigger] sites@[i]).pcs@ != (
                #[trigger] sites@[j]).pcs@,
    {
        let mut sites: Vec<HeapSite> = Vec::new();
        let n: usize = self.book.site_count();
        self.sites_observed = n as u32;
        let mut i: usize = 0;
        while i < self.book.sites.len()
            invariant
                i <= self.book.sites@.len(),
                self.book == old(self).book,
                sites@.len() == i,
                forall|j: int|
                    0 <= j < i ==> {
                        let s = self.book.sites@[j];
                        &&& (#[trigger] sites@[j]).pcs@ == s.0@
                        &&& sites@[j].count == s.1.alloc_count
                        &&& sites@[j].total_size == s.1.allocated
                    },
            decreases self.book.sites@.len() - i,
        {
            let s = &self.book.sites[i];
            let pcs = slice_to_vec(s.0.as_slice());
            sites.push(HeapSite { pcs, count: s.1.alloc_count, total_size: s.1.allocated });
            i += 1;
        }
        proof {
            let pairs = book::site_pairs(self.book.sites@);
            assert forall|i: int| 0 <= i < sites@.len() implies ({
                let b = self.book@;
                let pcs = (#[trigger] sites@[i]).pcs@;
                &&& b.sites.dom().contains(pcs)
                &&& sites@[i].total_size == b.sites[pcs].freed + book::live_sum(
                    b.live,
                    pcs,
                    false,
                )
                &&& sites@[i].count == b.sites[pcs].free_count + book::live_sum(b.live, pcs, true)
            }) by {
                assert(pairs[i].0 == sites@[i].pcs@);
                crate::assoc::lemma_entry(pairs, i);
            }
            assert forall|i: int, j: int| 0 <= i < j < sites@.len() implies (
            #[trigger] sites@[i]).pcs@ != (#[trigger] sites@[j]).pcs@ by {
                assert(pairs[i].0 != pairs[j].0);
            }
        }
        sites
    }

    pub fn stats(&self) -> (s: HeapStats)
        ensures
            s == (HeapStats {
                records: self.records,
                bytes_alloc: self.bytes_alloc,
                sites: self.sites_observed,
            }),
    {
        HeapStats { records: self.records, bytes_alloc: self.bytes_alloc, sites: self.sites_observed }
    }
}

/// Whether a drain that has taken in `taken` records takes in one more.
pub fn drain_goes_on(taken: u64) -> (r: bool)
    ensures
        r == (taken < DRAIN_MAX_RECORDS),
{
    taken < DRAIN_MAX_RECORDS
}

/// A batch of frees keeps the books balanced.
pub proof fn lemma_frees_balanced(b: book::BookView, fs: Seq<(u64, u64)>, n: nat)
    requires
        book::balanced(b),
        n <= fs.len(),
    ensures
        book::balanced(after_frees(b, fs, n)),
    decreases n,
{
    if n > 0 {
        lemma_frees_balanced(b, fs, (n - 1) as nat);
        book::lemma_free_balanced(after_frees(b, fs, (n - 1) as nat), fs[n - 1].0, fs[n - 1].1);
    }
}

/// Where an allocation is counted: at the innermost frames that were walked, all of them
/// up to 32; an allocation of which none was walked has its own address for a site.
pub proof fn lemma_site(walked: Seq<u64>, addr: u64)
    ensures
        1 <= site_of(walked, addr).len() <= 32,
        walked.len() > 0 ==> site_of(walked, addr).is_prefix_of(walked),
        0 < walked.len() <= 32 ==> site_of(walked, addr) == walked,
        walked.len() > 32 ==> site_of(walked, addr).len() == 32,
        walked.len() == 0 ==> site_of(walked, addr) == seq![addr],
{
    if walked.len() > 32 {
        assert(walked.take(32) =~= walked.subrange(0, 32));
    }
}

} // verus!
