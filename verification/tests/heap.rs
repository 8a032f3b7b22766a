//! The heap profiler: its books, its packets, its ring and its preload.

use sismo::heap::book::HeapBook;
use sismo::heap::heap_ring::{
    align_up, behind_record, next_record, reserve, Reservation, RingBuffer, RingError,
};
use sismo::heap::macos_heap_capture::{
    decode_record, drain_goes_on, resolve_setup, site_pcs, AllocRecord, HeapCapture, HeapRecord,
    DEFAULT_RING_SIZE_BYTES, DEFAULT_SAMPLE_INTERVAL_BYTES, MAX_FRAMES,
};
use sismo::heap::profile::{
    build_trace_data, sismo_heap_build_clock_snapshot_packet, sismo_heap_build_profile_packet,
    unique_pcs, HeapImage, HeapSite,
};
use sismo::heap_preload::protocol::{
    decode_config, encode_config, receive, socket_path, socket_path_bytes, sun_len, AttachConfig,
    ProtocolError,
};
use sismo::heap_preload::shim::{
    capture_user_frame, encode_alloc_record, keeps_waiting, plan, records, snapshot_len,
    AllocatorCall, FreeBatch, Plan, Session, FLUSH_AGE_NS,
};
use sismo::heap_preload::wire;
use sismo::heap_preload::wire::{encode_metadata, AllocMetadata, Arch, RegBlockArm64};

#[test]
fn alloc_then_free_moves_bytes_to_freed() {
    let mut b = HeapBook::default();
    b.apply_alloc(1, 0x1000, 4096, vec![0xa, 0xb]);
    b.apply_alloc(2, 0x2000, 8192, vec![0xa, 0xb]);
    b.apply_free(3, 0x1000);
    let s = b.site(&[0xa, 0xb]).expect("a site");
    assert_eq!((s.allocated, s.freed), (12288, 4096));
    assert_eq!((s.alloc_count, s.free_count), (2, 1));
    assert!(b.live.contains_key(&0x2000) && !b.live.contains_key(&0x1000));
    assert_eq!((b.live_count(0x2000), b.live_count(0x1000)), (1, 0));
}

#[test]
fn delayed_free_batch_matches_across_address_reuse() {
    // The churn pattern: one address reused every iteration, frees
    // arriving late as a batch. alloc(1) alloc(3) alloc(5) then
    // free(2) free(4) free(6): each free must take the newest live
    // allocation older than itself.
    let mut b = HeapBook::default();
    b.apply_alloc(1, 0x1000, 100, vec![0xa]);
    b.apply_alloc(3, 0x1000, 200, vec![0xa]);
    b.apply_alloc(5, 0x1000, 300, vec![0xa]);
    b.apply_free(2, 0x1000);
    b.apply_free(4, 0x1000);
    b.apply_free(6, 0x1000);
    let s = b.site(&[0xa]).expect("a site");
    assert_eq!((s.allocated, s.freed), (600, 600));
    assert_eq!((s.alloc_count, s.free_count), (3, 3));
    assert!(b.live.is_empty());
}

#[test]
fn free_older_than_every_live_alloc_is_stale() {
    let mut b = HeapBook::default();
    b.apply_alloc(3, 0x1000, 200, vec![0xb]);
    b.apply_free(2, 0x1000); // stale: predates the only live alloc
    assert_eq!(b.site(&[0xb]).unwrap().freed, 0);
    b.apply_free(4, 0x1000);
    assert_eq!(b.site(&[0xb]).unwrap().freed, 200);
}

#[test]
fn unmatched_frees_are_ignored() {
    let mut b = HeapBook::default();
    b.apply_free(1, 0xdead); // free of an unsampled allocation
    assert!(b.sites.is_empty() && b.live.is_empty());
}

#[test]
fn distinct_paths_to_one_leaf_stay_distinct_sites() {
    let mut b = HeapBook::default();
    b.apply_alloc(1, 0x1000, 64, vec![0xf00d, 0x10]);
    b.apply_alloc(2, 0x2000, 64, vec![0xf00d, 0x20]);
    assert_eq!(b.site_count(), 2);
}

#[test]
fn book_has_room_until_a_total_would_overflow() {
    let mut b = HeapBook::new();
    assert!(b.has_room(&[1], u64::MAX));
    b.apply_alloc(1, 0x1000, u64::MAX, vec![1]);
    assert!(!b.has_room(&[1], 1));
    assert!(b.has_room(&[2], 1));
}

#[test]
fn clock_snapshot_packet_bytes_are_exact() {
    // ts=150. Payload: two Clock submessages under CS_CLOCKS(1).
    // Each clock: clock_id(1)=id, timestamp(2)=150 -> 08 <id> 10 96 01.
    let got = sismo_heap_build_clock_snapshot_packet(150);
    assert_eq!(
        got,
        &[
            0x40, 0x96, 0x01, // timestamp
            0x32, 0x0E, // clock_snapshot, len 14
            0x0A, 0x05, 0x08, 0x06, 0x10, 0x96, 0x01, // BOOTTIME
            0x0A, 0x05, 0x08, 0x04, 0x10, 0x96, 0x01, // MONOTONIC_COARSE
        ]
    );
}

#[test]
fn profile_packet_contains_interned_tables_and_sample() {
    // One image ("img" at base 0x1000), one site with one pc=0x1010,
    // count=5, total=100. No name was found -> function name "?".
    let images = vec![HeapImage { base_avma: 0x1000, path: b"img".to_vec() }];
    let sites = vec![HeapSite { pcs: vec![0x1010], count: 5, total_size: 100 }];
    let got = sismo_heap_build_profile_packet(4242, 4096, 150, &images, &sites, &vec![]);

    // String pool: image path "img" (iid 1) then function name "?" (iid 2).
    assert!(got.windows(3).any(|w| w == b"img"));
    assert!(got.contains(&b'?'));
    // Heap name in ProcessHeapSamples.
    let heap_name = b"libc.malloc";
    assert!(
        got.windows(heap_name.len()).any(|w| w == heap_name),
        "profile packet should carry the heap name"
    );
    // pid 4242 = 0x1092 -> varint 92 21, under PHS_PID(1)=tag 08.
    assert!(got.windows(3).any(|w| w == [0x08, 0x92, 0x21]));
    // Wrapped with SEQ_INCREMENTAL_STATE_CLEARED(1) at field 13 (tag 0x68).
    assert!(got.windows(2).any(|w| w == [0x68, 0x01]));
}

#[test]
fn frames_dedupe_by_pc_across_sites() {
    // Two sites sharing pc 0x2000; a third distinct pc 0x3000. Expect 2
    // unique frames, 2 callstacks, 2 samples.
    let images = vec![HeapImage { base_avma: 0x1000, path: b"m".to_vec() }];
    let sites = vec![
        HeapSite { pcs: vec![0x2000], count: 1, total_size: 10 },
        HeapSite { pcs: vec![0x2000, 0x3000], count: 2, total_size: 20 },
    ];
    assert_eq!(unique_pcs(&sites), vec![0x2000, 0x3000]);
    let td = build_trace_data(&images, &sites, &vec![]);
    assert_eq!(td.frames.len(), 2, "pc 0x2000 shared -> deduped");
    assert_eq!(td.callstacks.len(), 2);
    assert_eq!(td.samples.len(), 2);
    // strings: 1 image path + 2 function names.
    assert_eq!(td.strings.len(), 3);
    // rel_pc for 0x2000 against base 0x1000 = 0x1000.
    assert_eq!(td.frames[0].rel_pc, 0x1000);
}

#[test]
fn found_names_stand_in_the_string_pool() {
    let images = vec![HeapImage { base_avma: 0x1000, path: b"m".to_vec() }];
    let sites = vec![HeapSite { pcs: vec![0x2000, 0x500], count: 1, total_size: 10 }];
    let td = build_trace_data(&images, &sites, &vec![b"main".to_vec(), b"".to_vec()]);
    assert_eq!(td.strings, vec![b"m".to_vec(), b"main".to_vec(), b"?".to_vec()]);
    // An address below every image is counted from 0, in the first mapping.
    assert_eq!(td.frames[1].mapping_iid, 1);
    assert_eq!(td.frames[1].rel_pc, 0x500);
}

const PAGE: u64 = 16 * 1024;

#[test]
fn create_write_read_roundtrip() {
    let mut ring = RingBuffer::create(64 * 1024, PAGE).expect("create");

    // Write two records.
    for payload in [b"hello".as_slice(), b"a-longer-record-payload".as_slice()] {
        let slot = ring.begin_write(payload.len() as u32).expect("room");
        ring.end_write(slot, payload);
    }

    // Read them back in order.
    let p1 = ring.begin_read().expect("first record");
    assert_eq!(p1, b"hello");
    ring.end_read(p1.len());

    let p2 = ring.begin_read().expect("second record");
    assert_eq!(p2, b"a-longer-record-payload");
    ring.end_read(p2.len());

    assert!(ring.begin_read().is_none(), "ring should be drained");
}

#[test]
fn rejects_bad_sizes() {
    assert!(RingBuffer::create(0, PAGE).is_err());
    assert!(RingBuffer::create(1000, PAGE).is_err()); // not a power of two
    assert!(RingBuffer::create(100, PAGE).is_err()); // below a page
    assert!(matches!(RingBuffer::create(PAGE / 2, PAGE), Err(RingError::InvalidSize)));
    assert!(RingBuffer::create(PAGE, PAGE).is_ok());
}

#[test]
fn wraparound_is_contiguous() {
    // Fill and drain repeatedly so write_pos wraps past `size`; wrapped records are
    // read whole.
    let mut ring = RingBuffer::create(16 * 1024, PAGE).expect("create");
    let payload = vec![0xABu8; 4000];
    for _ in 0..20 {
        let slot = ring.begin_write(payload.len() as u32).expect("room");
        ring.end_write(slot, &payload);
        let got = ring.begin_read().expect("record");
        assert_eq!(got.len(), payload.len());
        assert!(got.iter().all(|&b| b == 0xAB));
        ring.end_read(got.len());
    }
}

#[test]
fn write_then_read_roundtrips() {
    let mut rb = RingBuffer::create(64 * 1024, PAGE).expect("create");
    let payload = b"heap-record-xyz";
    let slot = rb.begin_write(payload.len() as u32).expect("room");
    rb.end_write(slot, payload);

    let got = rb.begin_read().expect("a record");
    assert_eq!(got.len(), payload.len());
    assert_eq!(got, payload);
    rb.end_read(got.len());
    assert!(rb.begin_read().is_none()); // drained
}

#[test]
fn oversized_write_is_rejected() {
    let mut rb = RingBuffer::create(64 * 1024, PAGE).expect("create");
    assert!(rb.begin_write(128 * 1024).is_none());
}

#[test]
fn a_record_is_read_once_it_is_published() {
    let mut rb = RingBuffer::create(PAGE, PAGE).expect("create");
    let a = rb.begin_write(4).expect("room");
    let b = rb.begin_write(4).expect("room");
    rb.end_write(b, b"bbbb");
    // The first is reserved and not published: nothing behind it is read.
    assert!(rb.begin_read().is_none());
    rb.end_write(a, b"aaaa");
    assert_eq!(rb.begin_read().unwrap(), b"aaaa");
    rb.end_read(4);
    assert_eq!(rb.begin_read().unwrap(), b"bbbb");
    rb.end_read(4);
    assert_eq!(rb.meta.num_reads_succeeded, 2);
    assert_eq!(rb.meta.num_reads_nodata, 1);
    assert_eq!(rb.meta.bytes_written, 8);
    assert_eq!(align_up(9), 16);
}

#[test]
fn a_full_ring_counts_what_it_turns_away() {
    let mut rb = RingBuffer::create(PAGE, PAGE).expect("create");
    assert!(rb.begin_write((PAGE - 8) as u32).is_some());
    assert!(rb.begin_write(1).is_none());
    assert_eq!(rb.meta.num_writes_overflow, 1);
    assert_eq!(rb.meta.num_writes_succeeded, 1);
}

fn registers() -> RegBlockArm64 {
    RegBlockArm64 { pc: 0x11, lr: 0x22, fp: 0x33, _padding: 0 }
}

#[test]
fn alloc_record_is_read_back_by_the_recorder() {
    let record = encode_alloc_record(7, 100, 4096, 0xbeef, 0x7000, 5, registers(), b"stack");
    match decode_record(&record) {
        HeapRecord::Alloc(a) => {
            assert_eq!((a.seq, a.sample_size, a.addr, a.sp), (7, 4096, 0xbeef, 0x7000));
            assert_eq!((a.pc, a.lr, a.fp), (0x11, 0x22, 0x33));
            assert_eq!(&a.stack[..5], b"stack");
            assert!(a.stack[5..].iter().all(|&b| b == 0));
        },
        _ => panic!("an allocation"),
    }
}

#[test]
fn frees_are_read_back_by_the_recorder() {
    let mut batch = FreeBatch::new();
    assert!(batch.queue_free(2, 1, 10, 0x1000, 5).is_none());
    let record = batch.queue_free(2, 1, 11, 0x2000, 6).expect("the batch is full");
    match decode_record(&record) {
        HeapRecord::Frees(fs) => assert_eq!(fs, vec![(10, 0x1000), (11, 0x2000)]),
        _ => panic!("a batch of frees"),
    }
    assert!(batch.entries.is_empty());
    // A batch that is old is flushed though it is not full.
    assert!(batch.queue_free(9, 1, 12, 0x3000, 100).is_none());
    assert!(batch.queue_free(9, 1, 13, 0x4000, 101 + FLUSH_AGE_NS).is_some());
    // A new session drops what the old one queued.
    assert!(batch.queue_free(9, 1, 14, 0x5000, 100).is_none());
    assert!(batch.queue_free(9, 2, 1, 0x6000, 100).is_none());
    assert_eq!(batch.entries, vec![(1, 0x6000)]);
}

#[test]
fn other_records_are_passed_over() {
    assert!(matches!(decode_record(&[1, 2, 3]), HeapRecord::Other));
    assert!(matches!(decode_record(&[0; 300]), HeapRecord::Other));
}

#[test]
fn capture_counts_and_snapshots_its_sites() {
    let mut c = HeapCapture::new();
    let a = AllocRecord {
        seq: 1,
        sample_size: 4096,
        addr: 0x1000,
        sp: 0,
        pc: 0,
        lr: 0,
        fp: 0,
        stack: vec![],
    };
    assert!(c.has_room(&a, &[0xa, 0xb]));
    c.process_alloc(&a, &[0xa, 0xb]);
    c.process_frees(&vec![(2, 0x1000)]);
    let sites = c.snapshot();
    assert_eq!(sites.len(), 1);
    assert_eq!(sites[0].pcs, vec![0xa, 0xb]);
    assert_eq!((sites[0].count, sites[0].total_size), (1, 4096));
    let stats = c.stats();
    assert_eq!((stats.records, stats.bytes_alloc, stats.sites), (1, 4096, 1));
    let s = c.book.site(&[0xa, 0xb]).unwrap();
    assert_eq!((s.freed, s.free_count), (4096, 1));
}

#[test]
fn a_stack_that_was_not_walked_is_its_allocation() {
    assert_eq!(site_pcs(&[], 0x77), vec![0x77]);
    assert_eq!(site_pcs(&[1, 2], 0x77), vec![1, 2]);
    assert_eq!(site_pcs(&[1; 40], 0x77).len(), MAX_FRAMES);
}

#[test]
fn setup_needs_a_target_and_has_defaults() {
    assert!(resolve_setup(0, 1, 1).is_none());
    let s = resolve_setup(5, 0, 0).unwrap();
    assert_eq!(s.ring_size, DEFAULT_RING_SIZE_BYTES);
    assert_eq!(s.sample_interval, DEFAULT_SAMPLE_INTERVAL_BYTES);
    let t = resolve_setup(5, 65536, 128).unwrap();
    assert_eq!((t.target_pid, t.ring_size, t.sample_interval), (5, 65536, 128));
    assert!(drain_goes_on(0));
    assert!(drain_goes_on(4_095));
    assert!(!drain_goes_on(4_096));
    assert!(!drain_goes_on(1_000_000));
}

#[test]
fn attach_config_is_32_bytes() {
    assert_eq!(std::mem::size_of::<AttachConfig>(), 32);
    let cfg =
        AttachConfig { version: 1, ring_size: 65536, sample_interval: 4096, reserved: [0; 16] };
    assert_eq!(encode_config(&cfg).len(), 32);
}

#[test]
fn socket_path_format() {
    let mut buf = [0u8; 128];
    let n = socket_path(4242, &mut buf).unwrap();
    assert_eq!(&buf[..n], b"/tmp/sismo-heap-4242.sock");
    assert_eq!(buf[n], 0);
}

#[test]
fn socket_path_needs_room() {
    let mut buf = [0u8; 8];
    assert!(socket_path(4242, &mut buf).is_none());
    let path = socket_path_bytes(-7);
    assert_eq!(path, b"/tmp/sismo-heap--7.sock");
    // The path, its two leading bytes and its NUL.
    assert_eq!(sun_len(path.len()) as usize, path.len() + 2 + 1);
}

fn control(fd: i32) -> Vec<u8> {
    let mut c = vec![0u8; 16];
    c.extend_from_slice(&fd.to_le_bytes());
    c
}

#[test]
fn handshake_hands_over_the_config_and_the_descriptor() {
    let cfg =
        AttachConfig { version: 1, ring_size: 65536, sample_interval: 4096, reserved: [7; 16] };
    let message = encode_config(&cfg);
    let back = decode_config(&message);
    assert_eq!(back.reserved, [7; 16]);
    let (got, fd) = match receive(32, &message, 20, &control(9)) {
        Ok(x) => x,
        Err(_) => panic!("a handshake"),
    };
    assert_eq!((got.version, got.ring_size, got.sample_interval), (1, 65536, 4096));
    assert_eq!(fd, 9);
    assert!(matches!(receive(31, &message, 20, &control(9)), Err(ProtocolError::RecvFailed)));
    assert!(matches!(receive(32, &message, 4, &control(9)), Err(ProtocolError::NoFdReceived)));
}

#[test]
fn frame_walk_recovers_the_caller_fp_and_return_addr() {
    // A stack: at 0x7010 the frame of the callee, with the caller's frame pointer
    // and the return address into the caller.
    let caller = 0x40_0000u64;
    let my_fp = 0x7040u64;
    let words = [0, 0, my_fp, caller + 0x20, 0, 0, 0, 0, 0, 0];
    let (sp, regs) = capture_user_frame(&words, 0x7000, 0x7010).expect("a frame");
    // Walking one frame back recovers the caller's frame pointer.
    assert_eq!(regs.fp, my_fp, "walked caller fp must match the caller's");
    // The recovered return address points back into the caller's code.
    let ret_addr = regs.pc;
    assert!(ret_addr != 0);
    assert!(
        ret_addr > caller && ret_addr < caller + 0x1000,
        "return addr {ret_addr:#x} not inside caller {caller:#x}"
    );
    assert_eq!(regs.lr, regs.pc);
    assert_eq!(sp, 0x7020);
    // No frame stands outside the memory, or between two words.
    assert!(capture_user_frame(&words, 0x7000, 0x7048).is_none());
    assert!(capture_user_frame(&words, 0x7000, 0x7011).is_none());
    assert!(capture_user_frame(&words, 0x7000, 0x6ff8).is_none());
}

#[test]
fn field_offsets_match_the_wire_contract() {
    // The recorder reads these fixed offsets.
    assert_eq!(wire::OFF_SAMPLE_SIZE, 16);
    assert_eq!(wire::OFF_ALLOC_ADDRESS, 24);
    assert_eq!(wire::OFF_STACK_POINTER, 32);
    assert_eq!(wire::OFF_REGISTER_DATA, 48);
    assert_eq!(wire::OFF_HEAP_ID, 320);
    assert_eq!(wire::OFF_ARCH, 324);
    let m = encode_metadata(&AllocMetadata {
        sequence_number: 1,
        alloc_size: 2,
        sample_size: 3,
        alloc_address: 4,
        stack_pointer: 5,
        clock_monotonic_coarse_ts: 6,
        registers: registers(),
        heap_id: 7,
        arch: Arch::Arm64,
    });
    assert_eq!(m.len(), wire::ALLOC_METADATA_BYTES);
    assert_eq!((m[16], m[24], m[32], m[48], m[320]), (3, 4, 5, 0x11, 7));
    assert_eq!(m[324] as u32, Arch::Arm64.number());
}

#[test]
fn calls_are_looked_at_while_a_recorder_is_attached() {
    let idle = Plan { guarded: false, frees: None, samples: None };
    assert_eq!(plan(AllocatorCall::Malloc { size: 8 }, false, false), idle);
    assert_eq!(plan(AllocatorCall::Malloc { size: 8 }, true, true), idle);
    assert_eq!(plan(AllocatorCall::Free { ptr: 0 }, true, false), idle);
    let p = plan(AllocatorCall::Realloc { ptr: 0x10, size: 8 }, true, false);
    assert_eq!(p, Plan { guarded: true, frees: Some(0x10), samples: Some(8) });
    let q = plan(AllocatorCall::Calloc { nmemb: u64::MAX, size: 2 }, true, false);
    assert_eq!(q.samples, Some(u64::MAX));
    let f = plan(AllocatorCall::Free { ptr: 0x20 }, true, false);
    assert_eq!(f, Plan { guarded: true, frees: Some(0x20), samples: None });
    assert!(records(p, 4096, 0, 0x99));
    assert!(!records(p, 0, 0, 0x99));
    assert!(!records(p, 4096, 12, 0x99));
    assert!(!records(p, 4096, 0, 0));
    assert!(!records(f, 4096, 0, 0x99));
}

#[test]
fn stack_snapshots_end_at_the_top() {
    assert_eq!(snapshot_len(0x8000, 0x7ff0), 0x10);
    assert_eq!(snapshot_len(0x10000, 0x1000), 8192);
    assert_eq!(snapshot_len(0x1000, 0x2000), 0);
}

#[test]
fn sessions_number_their_records() {
    let mut s = Session::new();
    assert!(!s.enabled);
    s.attach(512);
    assert!(s.enabled);
    assert_eq!(s.sampling_interval, 512);
    let a = s.next_seq();
    assert_eq!(s.next_seq(), a + 1);
    s.count(true);
    s.count(false);
    assert_eq!((s.emitted, s.dropped), (1, 1));
    let gen = s.gen;
    s.detach();
    assert!(!s.enabled);
    s.attach(512);
    assert!(s.gen != gen);
    assert!(keeps_waiting(false, 0));
    assert!(!keeps_waiting(true, 0));
    assert!(!keeps_waiting(false, 5_000));
}

#[test]
fn a_record_is_placed_behind_the_last_one() {
    // Five bytes take a header of eight and a payload padded to eight.
    assert_eq!(reserve(0, 0, 64, 5), Reservation::At { offset: 0, next: 16 });
    assert_eq!(reserve(80, 64, 64, 5), Reservation::At { offset: 16, next: 96 });
    assert_eq!(reserve(64, 8, 64, 5), Reservation::Full);
    assert_eq!(reserve(0, 0, 64, 57), Reservation::TooLarge);
    assert_eq!(reserve(0, 0, 64, 56), Reservation::At { offset: 0, next: 64 });
    assert_eq!(next_record(64, 80, 64), Some(0));
    assert_eq!(next_record(80, 80, 64), None);
    assert_eq!(behind_record(64, 5), 80);
}
