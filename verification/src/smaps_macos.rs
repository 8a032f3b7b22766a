//! A snapshot of a process's memory map, as a trace packet: one entry for each
//! region. The kernel does not split the dirty pages of a region into private and
//! shared ones, so all of them count on the side that the region is on.

use crate::digits;
use crate::digits::{append_ascii, unsigned_digits};
use crate::proto::wire;
use crate::proto::writer::ProtoWriter;
use vstd::prelude::*;
use vstd::slice::slice_to_vec;
use vstd::string::*;

verus! {

pub const TRACE_FIELD_PACKET: u32 = 1;

pub const TP_FIELD_TIMESTAMP: u32 = 8;

pub const TP_FIELD_TRUSTED_PACKET_SEQUENCE_ID: u32 = 10;

pub const TP_FIELD_TIMESTAMP_CLOCK_ID: u32 = 58;

pub const TP_FIELD_SMAPS_PACKET: u32 = 68;

pub const BUILTIN_CLOCK_BOOTTIME: u32 = 6;

pub const SP_FIELD_PID: u32 = 1;

pub const SP_FIELD_ENTRIES: u32 = 2;

/// The sequence of packets that are added afterwards.
pub const SMAPS_SEQUENCE_ID: u32 = 0xD0D0_CAFE;

/// The size of the kernel's record of a region, in words of four bytes.
pub const VM_REGION_SUBMAP_INFO_COUNT_64: u32 = 19;

pub const VM_REGION_SUBMAP_INFO_BYTES: usize = 76;

pub const SM_COW: u8 = 1;

pub const SM_PRIVATE: u8 = 2;

pub const SM_SHARED: u8 = 4;

pub const SM_PRIVATE_ALIASED: u8 = 6;

/// What of the kernel's record of a region is read.
#[derive(Clone, Copy, PartialEq, Eq, Structural, Debug)]
pub struct RegionInfo {
    pub protection: u32,
    pub user_tag: u32,
    pub pages_resident: u32,
    pub pages_swapped_out: u32,
    pub pages_dirtied: u32,
    pub share_mode: u8,
    pub is_submap: bool,
}

/// The record at its offsets: its fields stand at multiples of four bytes.
pub open spec fn info_in(b: Seq<u8>) -> RegionInfo {
    RegionInfo {
        protection: crate::bytes::le_u32(b, 0),
        user_tag: crate::bytes::le_u32(b, 20),
        pages_resident: crate::bytes::le_u32(b, 24),
        pages_swapped_out: crate::bytes::le_u32(b, 32),
        pages_dirtied: crate::bytes::le_u32(b, 36),
        share_mode: b[47],
        is_submap: crate::bytes::le_u32(b, 48) != 0,
    }
}

/// Read the kernel's record of a region.
pub fn region_info(b: &[u8]) -> (r: RegionInfo)
    requires
        b@.len() == VM_REGION_SUBMAP_INFO_BYTES,
    ensures
        r == info_in(b@),
{
    RegionInfo {
        protection: crate::bytes::read_le_u32(b, 0),
        user_tag: crate::bytes::read_le_u32(b, 20),
        pages_resident: crate::bytes::read_le_u32(b, 24),
        pages_swapped_out: crate::bytes::read_le_u32(b, 32),
        pages_dirtied: crate::bytes::read_le_u32(b, 36),
        share_mode: b[47],
        is_submap: crate::bytes::read_le_u32(b, 48) != 0,
    }
}

/// A region's numbers, in kilobytes.
pub struct Region {
    pub start: u64,
    pub size_kb: u64,
    pub private_dirty_kb: u64,
    pub private_clean_kb: u64,
    pub shared_dirty_kb: u64,
    pub shared_clean_kb: u64,
    pub swap_kb: u64,
    pub resident_kb: u64,
    pub protection: u32,
    pub path: Vec<u8>,
}

pub open spec fn is_private(mode: u8) -> bool {
    mode == SM_PRIVATE || mode == SM_COW || mode == SM_PRIVATE_ALIASED
}

pub open spec fn smaller(a: int, b: int) -> int {
    if a < b {
        a
    } else {
        b
    }
}

/// Whether `r` is the region of this record: what is resident is dirty or clean,
/// and private or shared.
pub open spec fn is_region(
    r: Region,
    start: u64,
    size: u64,
    info: RegionInfo,
    page_kb: u64,
    path: Seq<u8>,
) -> bool {
    let resident = info.pages_resident * page_kb;
    let dirty = smaller(info.pages_dirtied * page_kb, resident);
    let private = is_private(info.share_mode);
    &&& r.start == start
    &&& r.size_kb == size / 1024
    &&& r.resident_kb == resident
    &&& r.private_dirty_kb == (if private {
        dirty
    } else {
        0
    })
    &&& r.private_clean_kb == (if private {
        resident - dirty
    } else {
        0
    })
    &&& r.shared_dirty_kb == (if private {
        0
    } else {
        dirty
    })
    &&& r.shared_clean_kb == (if private {
        0
    } else {
        resident - dirty
    })
    &&& r.swap_kb == info.pages_swapped_out * page_kb
    &&& r.protection == info.protection
    &&& r.path@ == path
}

pub fn region_from_info(start: u64, size: u64, info: &RegionInfo, page_kb: u64, path: Vec<u8>) -> (r:
    Region)
    requires
        info.pages_resident * page_kb <= u64::MAX,
        info.pages_dirtied * page_kb <= u64::MAX,
        info.pages_swapped_out * page_kb <= u64::MAX,
    ensures
        is_region(r, start, size, *info, page_kb, path@),
{
    let resident_kb: u64 = info.pages_resident as u64 * page_kb;
    let all_dirty_kb: u64 = info.pages_dirtied as u64 * page_kb;
    let dirty_kb: u64 = if all_dirty_kb < resident_kb {
        all_dirty_kb
    } else {
        resident_kb
    };
    let clean_kb: u64 = resident_kb - dirty_kb;
    let private: bool = info.share_mode == SM_PRIVATE || info.share_mode == SM_COW
        || info.share_mode == SM_PRIVATE_ALIASED;
    Region {
        start,
        size_kb: size / 1024,
        private_dirty_kb: if private {
            dirty_kb
        } else {
            0
        },
        private_clean_kb: if private {
            clean_kb
        } else {
            0
        },
        shared_dirty_kb: if private {
            0
        } else {
            dirty_kb
        },
        shared_clean_kb: if private {
            0
        } else {
            clean_kb
        },
        swap_kb: info.pages_swapped_out as u64 * page_kb,
        resident_kb,
        protection: info.protection,
        path,
    }
}

/// What is resident is split without loss: each page counts once.
pub proof fn lemma_nothing_lost(
    r: Region,
    start: u64,
    size: u64,
    info: RegionInfo,
    page_kb: u64,
    path: Seq<u8>,
)
    requires
        is_region(r, start, size, info, page_kb, path),
    ensures
        r.private_dirty_kb + r.private_clean_kb + r.shared_dirty_kb + r.shared_clean_kb
            == r.resident_kb,
{
}

/// The name of a region with no file: its tag.
pub open spec fn anon_name(tag: u32) -> Seq<u8> {
    "[anon:".spec_bytes() + digits::ascii(digits::digits(tag as nat, 10))
        + "]".spec_bytes()
}

/// The name of a region: its file, or its tag where it has none.
pub fn region_name(file: Vec<u8>, tag: u32) -> (r: Vec<u8>)
    ensures
        r@ == (if file@.len() > 0 {
            file@
        } else {
            anon_name(tag)
        }),
{
    if file.len() > 0 {
        return file;
    }
    let mut r = slice_to_vec("[anon:".as_bytes());
    let d = unsigned_digits(tag as u64, false);
    append_ascii(&mut r, &d);
    r.extend_from_slice("]".as_bytes());
    assert(r@ =~= anon_name(tag));
    r
}

/// `SmapsEntry { path = 1, size_kb = 2, private_dirty_kb = 3, swap_kb = 4,
/// start_address = 6, protection_flags = 10, private_clean_resident_kb = 11,
/// shared_dirty_resident_kb = 12, shared_clean_resident_kb = 13,
/// proportional_resident_kb = 15 }`.
pub open spec fn entry(r: Region) -> Seq<u8> {
    wire::len_field(1, r.path@) + wire::varint_field(2, r.size_kb) + wire::varint_field(
        3,
        r.private_dirty_kb,
    ) + wire::varint_field(4, r.swap_kb) + wire::varint_field(6, r.start) + wire::varint_field(
        10,
        r.protection as u64,
    ) + wire::varint_field(11, r.private_clean_kb) + wire::varint_field(12, r.shared_dirty_kb)
        + wire::varint_field(13, r.shared_clean_kb) + wire::varint_field(15, r.resident_kb)
}

pub open spec fn entries(rs: Seq<Region>, n: nat) -> Seq<u8>
    decreases n,
{
    if n == 0 {
        Seq::empty()
    } else {
        entries(rs, (n - 1) as nat) + wire::len_field(SP_FIELD_ENTRIES, entry(rs[n - 1]))
    }
}

fn write_entry(packet: &mut ProtoWriter, r: &Region)
    ensures
        final(packet)@ == old(packet)@ + wire::len_field(SP_FIELD_ENTRIES, entry(*r)),
{
    let mut e = ProtoWriter::new();
    e.write_string(1, r.path.as_slice());
    e.write_uint64(2, r.size_kb);
    e.write_uint64(3, r.private_dirty_kb);
    e.write_uint64(4, r.swap_kb);
    e.write_uint64(6, r.start);
    e.write_uint32(10, r.protection);
    e.write_uint64(11, r.private_clean_kb);
    e.write_uint64(12, r.shared_dirty_kb);
    e.write_uint64(13, r.shared_clean_kb);
    e.write_uint64(15, r.resident_kb);
    assert(e@ =~= entry(*r));
    packet.write_message(SP_FIELD_ENTRIES, e.bytes());
}

/// The packet of a snapshot, in a trace of its own.
pub open spec fn smaps_trace(pid: u32, ts: u64, rs: Seq<Region>) -> Seq<u8> {
    wire::len_field(
        TRACE_FIELD_PACKET,
        wire::varint_field(TP_FIELD_TIMESTAMP, ts) + wire::varint_field(
            TP_FIELD_TIMESTAMP_CLOCK_ID,
            BUILTIN_CLOCK_BOOTTIME as u64,
        ) + wire::varint_field(
            TP_FIELD_TRUSTED_PACKET_SEQUENCE_ID,
            SMAPS_SEQUENCE_ID as u64,
        ) + wire::len_field(
            TP_FIELD_SMAPS_PACKET,
            wire::varint_field(SP_FIELD_PID, pid as u64) + entries(rs, rs.len()),
        ),
    )
}

/// The snapshot of a process; None where it has no regions.
pub fn smaps_trace_packet(pid: u32, timestamp_ns: u64, regions: &Vec<Region>) -> (r: Option<Vec<u8>>)
    ensures
        r is None <==> regions@.len() == 0,
        r matches Some(p) ==> p@ == smaps_trace(pid, timestamp_ns, regions@),
{
    if regions.len() == 0 {
        return None;
    }
    let mut packet = ProtoWriter::new();
    packet.write_uint32(SP_FIELD_PID, pid);
    let ghost head = packet@;
    let mut i: usize = 0;
    assert(head + entries(regions@, 0) =~= head);
    while i < regions.len()
        invariant
            i <= regions@.len(),
            packet@ == head + entries(regions@, i as nat),
        decreases regions@.len() - i,
    {
        write_entry(&mut packet, &regions[i]);
        i += 1;
        assert(packet@ =~= head + entries(regions@, i as nat));
    }
    let mut tp = ProtoWriter::new();
    tp.write_uint64(TP_FIELD_TIMESTAMP, timestamp_ns);
    tp.write_uint32(TP_FIELD_TIMESTAMP_CLOCK_ID, BUILTIN_CLOCK_BOOTTIME);
    tp.write_uint32(TP_FIELD_TRUSTED_PACKET_SEQUENCE_ID, SMAPS_SEQUENCE_ID);
    tp.write_message(TP_FIELD_SMAPS_PACKET, packet.bytes());
    let mut trace = ProtoWriter::new();
    trace.write_message(TRACE_FIELD_PACKET, tp.bytes());
    proof {
        let body = wire::varint_field(SP_FIELD_PID, pid as u64) + entries(regions@, regions@.len());
        assert(packet@ =~= body);
        assert(tp@ =~= wire::varint_field(TP_FIELD_TIMESTAMP, timestamp_ns) + wire::varint_field(
            TP_FIELD_TIMESTAMP_CLOCK_ID,
            BUILTIN_CLOCK_BOOTTIME as u64,
        ) + wire::varint_field(
            TP_FIELD_TRUSTED_PACKET_SEQUENCE_ID,
            SMAPS_SEQUENCE_ID as u64,
        ) + wire::len_field(TP_FIELD_SMAPS_PACKET, body));
        assert(trace@ =~= smaps_trace(pid, timestamp_ns, regions@));
    }
    Some(trace.into_bytes())
}

/// What the walk over the regions does with what the kernel gave at an address.
#[derive(Clone, Copy, PartialEq, Eq, Structural, Debug)]
pub enum WalkStep {
    /// Ask again at the same address, one level deeper.
    Descend,
    /// Take the region, and go on at this address.
    Take(u64),
    /// Take the region, and stop: it has no length.
    TakeLast,
    /// Stop.
    Stop,
}

/// The step of the walk: a submap is entered; the next region follows at the end of
/// this one.
pub fn walk_step(found: bool, is_submap: bool, address: u64, size: u64) -> (s: WalkStep)
    ensures
        s == (if !found {
            WalkStep::Stop
        } else if is_submap {
            WalkStep::Descend
        } else if size == 0 {
            WalkStep::TakeLast
        } else if address + size > u64::MAX {
            WalkStep::Take(u64::MAX)
        } else {
            WalkStep::Take((address + size) as u64)
        }),
{
    if !found {
        return WalkStep::Stop;
    }
    if is_submap {
        return WalkStep::Descend;
    }
    if size == 0 {
        return WalkStep::TakeLast;
    }
    if size > u64::MAX - address {
        WalkStep::Take(u64::MAX)
    } else {
        WalkStep::Take(address + size)
    }
}

/// What the entry of a region says, read back: under each number stands that figure of
/// the region, and under 1 its name.
#[verifier::spinoff_prover]
#[verifier::rlimit(40)]
pub proof fn lemma_entry_read_back(r: Region)
    requires
        r.path@.len() <= u64::MAX,
    ensures
        wire::complete(entry(r)),
        wire::under(entry(r), 1) == wire::one_text(r.path@),
        wire::under(entry(r), 2) == wire::one(r.size_kb),
        wire::under(entry(r), 3) == wire::one(r.private_dirty_kb),
        wire::under(entry(r), 4) == wire::one(r.swap_kb),
        wire::under(entry(r), 6) == wire::one(r.start),
        wire::under(entry(r), 10) == wire::one(r.protection as u64),
        wire::under(entry(r), 11) == wire::one(r.private_clean_kb),
        wire::under(entry(r), 12) == wire::one(r.shared_dirty_kb),
        wire::under(entry(r), 13) == wire::one(r.shared_clean_kb),
        wire::under(entry(r), 15) == wire::one(r.resident_kb),
{
    let a = wire::len_field(1, r.path@);
    let f2 = wire::varint_field(2, r.size_kb);
    let f3 = wire::varint_field(3, r.private_dirty_kb);
    let f4 = wire::varint_field(4, r.swap_kb);
    let f6 = wire::varint_field(6, r.start);
    let f10 = wire::varint_field(10, r.protection as u64);
    let f11 = wire::varint_field(11, r.private_clean_kb);
    let f12 = wire::varint_field(12, r.shared_dirty_kb);
    let f13 = wire::varint_field(13, r.shared_clean_kb);
    let f15 = wire::varint_field(15, r.resident_kb);
    wire::lemma_under_len(1, r.path@);
    wire::lemma_under_varint(2, r.size_kb);
    wire::lemma_under_varint(3, r.private_dirty_kb);
    wire::lemma_under_varint(4, r.swap_kb);
    wire::lemma_under_varint(6, r.start);
    wire::lemma_under_varint(10, r.protection as u64);
    wire::lemma_under_varint(11, r.private_clean_kb);
    wire::lemma_under_varint(12, r.shared_dirty_kb);
    wire::lemma_under_varint(13, r.shared_clean_kb);
    wire::lemma_under_varint(15, r.resident_kb);
    wire::lemma_join(a, f2);
    wire::lemma_join(a + f2, f3);
    wire::lemma_join(a + f2 + f3, f4);
    wire::lemma_join(a + f2 + f3 + f4, f6);
    wire::lemma_join(a + f2 + f3 + f4 + f6, f10);
    wire::lemma_join(a + f2 + f3 + f4 + f6 + f10, f11);
    wire::lemma_join(a + f2 + f3 + f4 + f6 + f10 + f11, f12);
    wire::lemma_join(a + f2 + f3 + f4 + f6 + f10 + f11 + f12, f13);
    wire::lemma_join(a + f2 + f3 + f4 + f6 + f10 + f11 + f12 + f13, f15);
    let e = entry(r);
    assert(e =~= a + f2 + f3 + f4 + f6 + f10 + f11 + f12 + f13 + f15);
    assert(wire::under(e, 1) =~= wire::one_text(r.path@));
    assert(wire::under(e, 2) =~= wire::one(r.size_kb));
    assert(wire::under(e, 3) =~= wire::one(r.private_dirty_kb));
    assert(wire::under(e, 4) =~= wire::one(r.swap_kb));
    assert(wire::under(e, 6) =~= wire::one(r.start));
    assert(wire::under(e, 10) =~= wire::one(r.protection as u64));
    assert(wire::under(e, 11) =~= wire::one(r.private_clean_kb));
    assert(wire::under(e, 12) =~= wire::one(r.shared_dirty_kb));
    assert(wire::under(e, 13) =~= wire::one(r.shared_clean_kb));
    assert(wire::under(e, 15) =~= wire::one(r.resident_kb));
}

/// The side that a region's pages count on: those of a private region, of one copied on
/// write and of a private alias are private, those of any other are shared; a page that
/// is dirty and resident is dirty, any other resident page is clean.
pub proof fn lemma_pages_on_one_side(
    r: Region,
    start: u64,
    size: u64,
    info: RegionInfo,
    page_kb: u64,
    path: Seq<u8>,
)
    requires
        is_region(r, start, size, info, page_kb, path),
    ensures
        info.share_mode == 1 || info.share_mode == 2 || info.share_mode == 6
            ==> r.shared_dirty_kb == 0 && r.shared_clean_kb == 0,
        info.share_mode != 1 && info.share_mode != 2 && info.share_mode != 6
            ==> r.private_dirty_kb == 0 && r.private_clean_kb == 0,
        r.private_dirty_kb + r.shared_dirty_kb <= r.resident_kb,
        info.pages_dirtied <= info.pages_resident ==> r.private_dirty_kb + r.shared_dirty_kb
            == info.pages_dirtied * page_kb,
        info.pages_dirtied >= info.pages_resident ==> r.private_clean_kb + r.shared_clean_kb
            == 0,
        r.resident_kb == info.pages_resident * page_kb,
        r.swap_kb == info.pages_swapped_out * page_kb,
        1024 * r.size_kb <= size < 1024 * (r.size_kb + 1),
{
    let d = info.pages_dirtied as int;
    let n = info.pages_resident as int;
    let k = page_kb as int;
    assert(d <= n ==> d * k <= n * k) by (nonlinear_arith)
        requires
            k >= 0,
    ;
    assert(d >= n ==> d * k >= n * k) by (nonlinear_arith)
        requires
            k >= 0,
    ;
}

#[verifier::spinoff_prover]
#[verifier::rlimit(40)]
proof fn lemma_entries_read_back(rs: Seq<Region>, n: nat)
    requires
        n <= rs.len(),
        entries(rs, n).len() <= u64::MAX,
    ensures
        wire::complete(entries(rs, n)),
        forall|k: u32| k != 2 ==> #[trigger] wire::under(entries(rs, n), k) == Seq::<
            wire::FieldValue,
        >::empty(),
        wire::under(entries(rs, n), 2).len() == n,
        forall|i: int|
            0 <= i < n ==> #[trigger] wire::under(entries(rs, n), 2)[i] == wire::FieldValue::Len(
                entry(rs[i]),
            ),
    decreases n,
{
    if n == 0 {
        wire::lemma_under_empty();
    } else {
        let m = (n - 1) as nat;
        let before = entries(rs, m);
        let last = wire::len_field(2, entry(rs[n - 1]));
        assert(entries(rs, n) == before + last);
        assert(before.len() <= entries(rs, n).len());
        assert(entry(rs[n - 1]).len() <= last.len());
        lemma_entries_read_back(rs, m);
        wire::lemma_under_len(2, entry(rs[n - 1]));
        wire::lemma_join(before, last);
        assert forall|k: u32| k != 2 implies #[trigger] wire::under(entries(rs, n), k) == Seq::<
            wire::FieldValue,
        >::empty() by {
            assert(wire::under(before + last, k) =~= Seq::<wire::FieldValue>::empty());
        }
        let all = wire::under(entries(rs, n), 2);
        assert(all == wire::under(before, 2) + wire::one_text(entry(rs[n - 1])));
        assert forall|i: int| 0 <= i < n implies #[trigger] all[i] == wire::FieldValue::Len(
            entry(rs[i]),
        ) by {
            if i < m {
                assert(all[i] == wire::under(before, 2)[i]);
            }
        }
    }
}

/// What the snapshot of a process says, read back: one packet, stamped with the time by
/// the boot clock, of the process, with one entry for each region in their order.
#[verifier::spinoff_prover]
#[verifier::rlimit(40)]
pub proof fn lemma_snapshot_read_back(pid: u32, ts: u64, rs: Seq<Region>)
    requires
        smaps_trace(pid, ts, rs).len() <= u64::MAX,
    ensures
        exists|packet: Seq<u8>, snapshot: Seq<u8>|
            {
                &&& wire::under(smaps_trace(pid, ts, rs), 1) == #[trigger] wire::one_text(packet)
                &&& wire::under(packet, 8) == wire::one(ts)
                &&& wire::under(packet, 58) == wire::one(6)
                &&& wire::under(packet, 10) == wire::one(0xD0D0_CAFE)
                &&& wire::under(packet, 68) == #[trigger] wire::one_text(snapshot)
                &&& wire::under(snapshot, 1) == wire::one(pid as u64)
                &&& wire::under(snapshot, 2).len() == rs.len()
                &&& forall|i: int|
                    0 <= i < rs.len() ==> #[trigger] wire::under(snapshot, 2)[i]
                        == wire::FieldValue::Len(entry(rs[i]))
            },
{
    let snapshot = wire::varint_field(1, pid as u64) + entries(rs, rs.len());
    let a = wire::varint_field(8, ts);
    let b = wire::varint_field(58, 6);
    let c = wire::varint_field(10, 0xD0D0_CAFE);
    let d = wire::len_field(68, snapshot);
    let packet = a + b + c + d;
    assert(smaps_trace(pid, ts, rs) == wire::len_field(1, packet));
    assert(packet.len() <= smaps_trace(pid, ts, rs).len());
    assert(snapshot.len() <= d.len() <= packet.len());
    lemma_entries_read_back(rs, rs.len());
    wire::lemma_under_varint(1, pid as u64);
    wire::lemma_join(wire::varint_field(1, pid as u64), entries(rs, rs.len()));
    assert(wire::under(snapshot, 1) =~= wire::one(pid as u64));
    assert(wire::under(snapshot, 2) =~= wire::under(entries(rs, rs.len()), 2));
    wire::lemma_under_varint(8, ts);
    wire::lemma_under_varint(58, 6);
    wire::lemma_under_varint(10, 0xD0D0_CAFE);
    wire::lemma_under_len(68, snapshot);
    wire::lemma_under_len(1, packet);
    wire::lemma_join(a, b);
    wire::lemma_join(a + b, c);
    wire::lemma_join(a + b + c, d);
    assert(wire::under(packet, 8) =~= wire::one(ts));
    assert(wire::under(packet, 58) =~= wire::one(6));
    assert(wire::under(packet, 10) =~= wire::one(0xD0D0_CAFE));
    assert(wire::under(packet, 68) =~= wire::one_text(snapshot));
}
/// The kernel's record of a region that was written is read back: the protection, the most
/// it can be, what a child inherits, the offset, the tag, the pages resident, those no
/// longer shared, those swapped out and those dirtied, the references, then the depth and
/// the pager in three bytes, how it is shared in one, and whether it is a submap.
#[verifier::spinoff_prover]
#[verifier::rlimit(40)]
pub proof fn lemma_info_read_back(
    info: RegionInfo,
    max_protection: u32,
    inheritance: u32,
    offset: u64,
    unshared: u32,
    references: u32,
    depth: Seq<u8>,
    submap: u32,
    rest: Seq<u8>,
)
    requires
        depth.len() == 3,
        info.is_submap == (submap != 0),
    ensures
        info_in(
            crate::bytes::words32(seq![info.protection, max_protection, inheritance])
                + crate::bytes::words64(seq![offset]) + crate::bytes::words32(
                seq![
                    info.user_tag,
                    info.pages_resident,
                    unshared,
                    info.pages_swapped_out,
                    info.pages_dirtied,
                    references,
                ],
            ) + depth + seq![info.share_mode] + crate::bytes::words32(seq![submap]) + rest,
        ) == info,
{
    let heads = seq![info.protection, max_protection, inheritance];
    let pages = seq![
        info.user_tag,
        info.pages_resident,
        unshared,
        info.pages_swapped_out,
        info.pages_dirtied,
        references,
    ];
    let a = crate::bytes::words32(heads);
    let o = crate::bytes::words64(seq![offset]);
    let c = crate::bytes::words32(pages);
    let e = crate::bytes::words32(seq![submap]);
    crate::bytes::lemma_words32_read_back(heads);
    crate::bytes::lemma_words64_read_back(seq![offset]);
    crate::bytes::lemma_words32_read_back(pages);
    crate::bytes::lemma_words32_read_back(seq![submap]);
    let b = a + o + c + depth + seq![info.share_mode] + e + rest;
    assert(b.subrange(0, 12) =~= a);
    assert(b.subrange(20, 44) =~= c);
    assert(b.subrange(48, 52) =~= e);
    assert(b[47] == info.share_mode);
    crate::bytes::lemma_numbers_in_part(b, 0, a);
    crate::bytes::lemma_numbers_in_part(b, 20, c);
    crate::bytes::lemma_numbers_in_part(b, 48, e);
    assert(crate::bytes::le_u32(a, 4 * 0int) == heads[0]);
    assert(crate::bytes::le_u32(b, 0 + 4 * 0int) == heads[0]);
    assert(crate::bytes::le_u32(c, 4 * 0int) == pages[0]);
    assert(crate::bytes::le_u32(b, 20 + 4 * 0int) == pages[0]);
    assert(crate::bytes::le_u32(c, 4 * 1int) == pages[1]);
    assert(crate::bytes::le_u32(b, 20 + 4 * 1int) == pages[1]);
    assert(crate::bytes::le_u32(c, 4 * 3int) == pages[3]);
    assert(crate::bytes::le_u32(b, 20 + 4 * 3int) == pages[3]);
    assert(crate::bytes::le_u32(c, 4 * 4int) == pages[4]);
    assert(crate::bytes::le_u32(b, 20 + 4 * 4int) == pages[4]);
    assert(crate::bytes::le_u32(e, 4 * 0int) == seq![submap][0]);
    assert(crate::bytes::le_u32(b, 48 + 4 * 0int) == submap);
}

} // verus!
