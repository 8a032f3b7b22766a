//! The wire format, and the messages that are written in it.

use sismo::proto::config_abi::{
    decode_varint_fields, emit, read_varint, sismo_config_cpu_decode, sismo_config_cpu_encode,
    sismo_config_extract, sismo_config_heap_decode, sismo_config_heap_encode,
    sismo_config_sched_decode, sismo_config_sched_encode, skip_field,
};
use sismo::proto::packets::{
    write_kernel_task_state_event, write_perf_defaults_packet, write_perf_sample,
};
use sismo::proto::reader::{all_fields, ProtoReader, WireValue};
use sismo::proto::sched_protos::{
    encode_vm_program, sismo_encode_kernel_process_tree, sismo_macos_sched_vm_program, Instruction,
    Op, ProcessC, ThreadC,
};
use sismo::proto::session_config::{
    encode_buffer_config, encode_track_event_config, sismo_encode_data_source_descriptor,
    sismo_encode_trace_config, DataSourceEntryC, KIND_LINUX_FTRACE, KIND_SISMO_VENDOR,
    KIND_TRACK_EVENT, MODE_FILE, MODE_RING,
};
use sismo::proto::sismo_config::{
    config_extract, cpu_decode, cpu_encode, heap_decode, heap_encode, sched_decode, sched_encode,
    sign_extended,
};
use sismo::proto::writer::ProtoWriter;

#[test]
fn reads_back_what_the_writer_wrote() {
    let mut w = ProtoWriter::new();
    w.write_uint64(1, 150);
    w.write_string(2, b"hi");
    w.write_uint32(3, 7);
    let mut seen = vec![];
    for (f, v) in all_fields(w.bytes()) {
        match (f, v) {
            (1, WireValue::Varint(n)) => seen.push(format!("v1={n}")),
            (2, WireValue::Len(s)) => seen.push(format!("s2={}", std::str::from_utf8(s).unwrap())),
            (3, WireValue::Varint(n)) => seen.push(format!("v3={n}")),
            _ => panic!("unexpected field"),
        }
    }
    assert_eq!(seen, vec!["v1=150", "s2=hi", "v3=7"]);
}

#[test]
fn nested_messages_and_truncation() {
    let mut inner = ProtoWriter::new();
    inner.write_string(1, b"name");
    let mut outer = ProtoWriter::new();
    outer.write_message(2, inner.bytes());
    let mut names = vec![];
    for (f, v) in all_fields(outer.bytes()) {
        if let (2, WireValue::Len(msg)) = (f, v) {
            for (f2, v2) in all_fields(msg) {
                if let (1, WireValue::Len(s)) = (f2, v2) {
                    names.push(s.to_vec());
                }
            }
        }
    }
    assert_eq!(names, vec![b"name".to_vec()]);
    // Truncated input ends iteration without panicking.
    let count = all_fields(&[0x0a, 0x05, 0x01]).len(); // len=5 but only 1 byte
    assert_eq!(count, 0);
}

#[test]
fn varint_roundtrip() {
    let mut w = ProtoWriter::new();
    w.write_uint64(1, 150);
    // tag = 1<<3|0 = 0x08; varint(150) = 0x96 0x01
    assert_eq!(w.bytes(), &[0x08, 0x96, 0x01]);
}

/// Return the payload of the first LEN-typed field `field`, or panic.
fn sub<'a>(buf: &'a [u8], field: u32) -> &'a [u8] {
    for (f, v) in all_fields(buf) {
        if f == field {
            if let WireValue::Len(s) = v {
                return s;
            }
        }
    }
    panic!("no LEN field {field}");
}

/// Return the varint of the first VARINT-typed field `field`, or panic.
fn varint(buf: &[u8], field: u32) -> u64 {
    for (f, v) in all_fields(buf) {
        if f == field {
            if let WireValue::Varint(n) = v {
                return n;
            }
        }
    }
    panic!("no VARINT field {field}");
}

fn has_field(buf: &[u8], field: u32) -> bool {
    all_fields(buf).iter().any(|(f, _)| *f == field)
}

#[test]
fn perf_sample_fields_round_trip() {
    // cpu=1, pid=2, tid=3, callstack_iid=5; no timebase/followers/data.
    let mut w = ProtoWriter::new();
    write_perf_sample(&mut w, 66, 1, 2, 3, 5, 0, &[], 0, None);
    let ps = sub(w.bytes(), 66);
    assert_eq!(varint(ps, 1), 1);
    assert_eq!(varint(ps, 2), 2);
    assert_eq!(varint(ps, 3), 3);
    assert_eq!(varint(ps, 4), 5);
    // callstack_iid=0 / timebase_count=0 / data are omitted.
    assert!(!has_field(ps, 6) && !has_field(ps, 20) && !has_field(ps, 21));
}

#[test]
fn perf_sample_followers_and_data_symbol() {
    let mut w = ProtoWriter::new();
    write_perf_sample(&mut w, 66, 0, 0, 0, 0, 0, &[100, 200], 0xdead, Some(b"[heap]"));
    let ps = sub(w.bytes(), 66);
    let follower_counts: Vec<u64> = all_fields(ps)
        .into_iter()
        .filter_map(|(f, v)| match (f, v) {
            (7, WireValue::Varint(n)) => Some(n),
            _ => None,
        })
        .collect();
    assert_eq!(follower_counts, vec![100, 200]);
    assert_eq!(varint(ps, 20), 0xdead);
    assert_eq!(sub(ps, 21), b"[heap]");
    // cpu, pid and tid are 0 and left out.
    assert!(!has_field(ps, 1) && !has_field(ps, 2) && !has_field(ps, 3));
}

#[test]
fn perf_sample_of_zeros_is_empty() {
    let mut w = ProtoWriter::new();
    write_perf_sample(&mut w, 66, 0, 0, 0, 0, 0, &[], 0, None);
    assert!(has_field(w.bytes(), 66));
    assert!(sub(w.bytes(), 66).is_empty());
}

#[test]
fn kernel_task_state_event_fields_round_trip() {
    // cpu=3, comm="foo", tid=42, state=3 (running), prio=31.
    let mut w = ProtoWriter::new();
    write_kernel_task_state_event(&mut w, 117, 3, b"foo", 42, 3, 31);
    let ev = sub(w.bytes(), 117);
    assert_eq!(varint(ev, 1), 3);
    assert_eq!(sub(ev, 2), b"foo");
    assert_eq!(varint(ev, 3), 42);
    assert_eq!(varint(ev, 4), 3);
    assert_eq!(varint(ev, 5), 31);
}

#[test]
fn kernel_task_state_event_negative_int32_is_bitcast_not_sign_extended() {
    // cpu=-1 must encode as the 5-byte u32 bitcast (FF FF FF FF 0F), not
    // the 10-byte 64-bit sign-extension. comm empty -> field 2 omitted.
    let mut w = ProtoWriter::new();
    write_kernel_task_state_event(&mut w, 117, -1, b"", 0, 0, 0);
    let ev = sub(w.bytes(), 117);
    // cpu(1)=-1: 08 FF FF FF FF 0F (5-byte varint), then tid/state/prio=0.
    assert_eq!(&ev[..6], [0x08, 0xFF, 0xFF, 0xFF, 0xFF, 0x0F]);
    assert!(!has_field(ev, 2));
    assert_eq!(varint(ev, 1) as u32, u32::MAX);
}

#[test]
fn kernel_task_state_event_comm_capped_at_64() {
    let mut w = ProtoWriter::new();
    write_kernel_task_state_event(&mut w, 117, 0, &[b'a'; 100], 0, 0, 0);
    assert_eq!(sub(sub(w.bytes(), 117), 2).len(), 64);
}

#[test]
fn perf_defaults_packet_round_trips() {
    // timebase name "x", no freq, no followers, scope=thread(2),
    // clock=MONOTONIC(3), seq=INCREMENTAL_STATE_CLEARED(1).
    let mut w = ProtoWriter::new();
    write_perf_defaults_packet(&mut w, b"x", 0, &[], 2, 3, 1);
    assert_eq!(varint(w.bytes(), 13), 1); // sequence_flags
    let tpd = sub(w.bytes(), 59);
    assert_eq!(varint(tpd, 58), 3); // timestamp_clock_id
    let psd = sub(tpd, 12);
    assert_eq!(varint(psd, 5), 2); // sample_scope
    let tb = sub(psd, 1);
    assert_eq!(sub(tb, 10), b"x"); // timebase name
    assert!(!has_field(tb, 2)); // freq=0 omitted
    assert!(!has_field(psd, 4)); // no followers
}

#[test]
fn perf_defaults_packet_with_followers() {
    let followers: [&[u8]; 2] = [b"a", b"bb"];
    let mut w = ProtoWriter::new();
    write_perf_defaults_packet(&mut w, b"tb", 0, &followers, 2, 3, 1);
    let psd = sub(sub(w.bytes(), 59), 12);
    let names: Vec<Vec<u8>> = all_fields(psd)
        .into_iter()
        .filter_map(|(f, v)| match (f, v) {
            (4, WireValue::Len(fe)) => Some(sub(fe, 4).to_vec()),
            _ => None,
        })
        .collect();
    assert_eq!(names, vec![b"a".to_vec(), b"bb".to_vec()]);
}

#[test]
fn reader_stops_in_the_middle_of_what_is_cut_off() {
    // A whole field, then a tag alone.
    let mut r = ProtoReader::new(&[0x08, 0x05, 0x10]);
    assert!(matches!(r.next(), Some((1, WireValue::Varint(5)))));
    assert!(r.next().is_none());
    // The fixed-width wire types.
    let b = [0x09, 1, 2, 3, 4, 5, 6, 7, 8, 0x15, 9, 8, 7, 6];
    let all = all_fields(&b);
    assert_eq!(all.len(), 2);
    assert!(matches!(all[0], (1, WireValue::Fixed64([1, 2, 3, 4, 5, 6, 7, 8]))));
    assert!(matches!(all[1], (2, WireValue::Fixed32([9, 8, 7, 6]))));
    // A wire type that is none ends the message.
    assert_eq!(all_fields(&[0x0b, 0x00]).len(), 0);
}

#[test]
fn nested_message_has_a_padded_length() {
    let mut w = ProtoWriter::new();
    let marker = w.begin_message(3);
    w.write_uint32(1, 7);
    w.end_message(marker);
    let m = sub(w.bytes(), 3);
    assert_eq!(m, &[0x08, 0x07]);
    let mut v = ProtoWriter::new();
    v.message(3, |m| m.write_uint32(1, 7));
    assert_eq!(v.into_bytes(), w.into_bytes());
}

#[test]
fn kernel_process_tree_single_thread_bytes_are_exact() {
    let threads =
        [ThreadC { tid: 7, pid: 3, comm: b"hi".to_vec(), is_main_thread: false, is_idle: false }];
    let mut out = [0u8; 64];
    let n = sismo_encode_kernel_process_tree(&[], &threads, &mut out);
    // Thread submessage at field 2: outer 12 08, body 08 07 10 03 1a 02 'h' 'i'.
    assert_eq!(&out[..n], &[0x12, 0x08, 0x08, 0x07, 0x10, 0x03, 0x1a, 0x02, b'h', b'i']);
}

#[test]
fn kernel_process_tree_names_processes_first() {
    let processes = [ProcessC { pid: 5, ppid: 1, cmdline: b"/bin/x".to_vec() }];
    let mut out = [0u8; 64];
    let n = sismo_encode_kernel_process_tree(&processes, &[], &mut out);
    assert_eq!(out[0], 0x0a);
    let p = sub(&out[..n], 1);
    assert_eq!(varint(p, 1), 5);
    assert_eq!(varint(p, 2), 1);
    assert_eq!(sub(p, 3), b"/bin/x");
}

#[test]
fn vm_program_matches_reference_serialization() {
    // Bytes from a protos::gen::VmProgram of the same structure,
    // SerializeAsString()'d + hex-dumped — the byte-exact contract.
    let expected_hex = [
        "126e0a041202087a3a320a0612040801280130013a0c0a04120208013a041",
        "20210003a180a1208021202087a1202080112041801300018013a021a003",
        "a320a0612040802280130013a0c0a04120208013a04120210003a180a120",
        "8021202087a1202080212041801300018013a021a00",
    ]
    .concat();
    let mut out = [0u8; 4096];
    let n = sismo_macos_sched_vm_program(&mut out);
    let got: String = out[..n].iter().map(|b| format!("{b:02x}")).collect();
    assert_eq!(got, expected_hex);
}

#[test]
fn vm_program_del_instruction_bytes() {
    let bytes = encode_vm_program(0, &[Instruction::new(Op::Del)]);
    // instr(2) len 2, del(5) len 0: 12 02 2a 00.
    assert_eq!(bytes, &[0x12, 0x02, 0x2a, 0x00]);
}

#[test]
fn descriptor_bytes_are_exact() {
    // name="x", will_notify_on_stop=true.
    let mut out = [0u8; 64];
    let n = sismo_encode_data_source_descriptor(b"x", true, false, &[], &mut out);
    // name(1) len 1 "x": 0A 01 78; will_notify_on_stop(2)=1: 10 01.
    assert_eq!(&out[..n], &[0x0A, 0x01, 0x78, 0x10, 0x01]);
}

#[test]
fn descriptor_with_protovm_program() {
    let mut out = [0u8; 64];
    let n = sismo_encode_data_source_descriptor(b"s", true, false, &[0xDE, 0xAD], &mut out);
    // ...protovm_program(10) len 2: tag=10<<3|2=0x52, 02, DE AD.
    let got = &out[..n];
    assert!(got.windows(4).any(|w| w == [0x52, 0x02, 0xDE, 0xAD]));
}

#[test]
fn buffer_config_is_v2() {
    let b = encode_buffer_config(1024, 1);
    // size_kb(1)=1024: 08 80 08; fill_policy(4)=1: 20 01; exp_mode(8)=1: 40 01.
    assert_eq!(b, &[0x08, 0x80, 0x08, 0x20, 0x01, 0x40, 0x01]);
}

#[test]
fn track_event_uses_enabled_categories_field_2() {
    let te = encode_track_event_config();
    // enabled_categories(2) len 1 "*": 12 01 2A. NOT field 1 (disabled).
    assert_eq!(te, &[0x12, 0x01, 0x2A]);
}

fn entry(kind: u32, name: &[u8], config: &[u8], limit_kb: u32) -> DataSourceEntryC {
    DataSourceEntryC {
        kind,
        name: name.to_vec(),
        sismo_config: config.to_vec(),
        protovm_memory_limit_kb: limit_kb,
    }
}

#[test]
fn trace_config_ring_with_track_event() {
    // ring mode, one track_event source, session "s", 8 MB buffer.
    let entries = [entry(KIND_TRACK_EVENT, b"", b"", 0)];
    let mut out = [0u8; 256];
    let n = sismo_encode_trace_config(MODE_RING, 8192, 0, b"", 0, b"s", &entries, &mut out);
    let got = &out[..n];
    // Contains a buffer (field 1) with V2 marker (40 01) and the
    // track_event data source name, plus session_name(22) "s" (tag 0xB2 0x01).
    assert!(got.windows(2).any(|w| w == [0x40, 0x01]), "buffer V2 marker");
    assert!(got.windows(11).any(|w| w == b"track_event"), "track_event source name");
    assert!(got.windows(3).any(|w| w == [0xB2, 0x01, 0x01]), "session_name field 22, len 1");
    // Ring mode: no write_into_file(8) / duration(3) at the top level.
    assert!(!has_field(got, 8) && !has_field(got, 3));
}

#[test]
fn trace_config_file_mode_and_sismo_vendor_with_protovm() {
    let cfg = [0x08u8, 0x2A]; // a stand-in sismo_config payload
    let entries = [entry(KIND_SISMO_VENDOR, b"sismo.macos_sched", &cfg, 4096)];
    let mut out = [0u8; 256];
    let n = sismo_encode_trace_config(
        MODE_FILE,
        8192,
        0,
        b"/tmp/t.pftrace",
        1024,
        b"sismo_record",
        &entries,
        &mut out,
    );
    let got = &out[..n];
    assert!(got.windows(17).any(|w| w == b"sismo.macos_sched"));
    // sismo_config at field 2000: tag=2000<<3|2=0x3E82 -> 82 7D.
    assert!(got.windows(2).any(|w| w == [0x82, 0x7D]), "sismo_config field 2000");
    // write_into_file(8)=1: 40 01.
    assert!(got.windows(2).any(|w| w == [0x40, 0x01]));
    // output_path(29) "/tmp/t.pftrace": tag=29<<3|2=0xEA 0x01.
    assert!(got.windows(2).any(|w| w == [0xEA, 0x01]));
    assert_eq!(varint(got, 8), 1);
    assert_eq!(sub(got, 29), b"/tmp/t.pftrace");
}

#[test]
fn trace_config_returns_zero_when_cap_too_small() {
    let entries = [entry(KIND_LINUX_FTRACE, b"", b"", 0)];
    let mut out = [0u8; 4];
    let n = sismo_encode_trace_config(MODE_RING, 8192, 0, b"", 0, b"s", &entries, &mut out);
    assert_eq!(n, 0);
}

#[test]
fn sismo_config_cpu_roundtrips() {
    assert_eq!(cpu_decode(&cpu_encode(12345, 1000)), (12345, 1000));
    let mut out = [0u8; 64];
    let n = sismo_config_cpu_encode(12345, 1000, &mut out);
    assert_eq!(sismo_config_cpu_decode(&out[..n]), (true, 12345, 1000));
}

#[test]
fn sismo_config_heap_roundtrips() {
    let bytes = heap_encode(777, 16 * 1024 * 1024, 4096);
    assert_eq!(heap_decode(&bytes), (777, 16 * 1024 * 1024, 4096));
    let mut out = [0u8; 64];
    let n = sismo_config_heap_encode(777, 16 * 1024 * 1024, 4096, &mut out);
    assert_eq!(sismo_config_heap_decode(&out[..n]), (true, 777, 16 * 1024 * 1024, 4096));
}

#[test]
fn sismo_config_sched_roundtrips_including_negative() {
    for v in [256 * 1024i32, -5, 0] {
        assert_eq!(sched_decode(&sched_encode(v, 0, 0)), (v, 0, 0));
        let mut out = [0u8; 64];
        let n = sismo_config_sched_encode(v, &mut out);
        assert_eq!(sismo_config_sched_decode(&out[..n]), (true, v));
    }
    // target_pid + threshold round-trip alongside the buffer size.
    assert_eq!(sched_decode(&sched_encode(-5, 4242, 500)), (-5, 4242, 500));
}

#[test]
fn sismo_config_cpu_encode_omits_zero_fields() {
    // tag (1<<3|0)=0x08, varint 42 = 0x2A → 2 bytes only.
    assert_eq!(cpu_encode(42, 0), &[0x08, 0x2A]);
    let mut out = [0u8; 64];
    let n = sismo_config_cpu_encode(42, 0, &mut out);
    assert_eq!(&out[..n], &[0x08, 0x2A]);
}

#[test]
fn sismo_config_decode_skips_unknown_fields() {
    // Field 9 (varint 7), then field 1 (target_pid 42): 48 07 08 2A.
    let (p, _) = cpu_decode(&[0x48, 0x07, 0x08, 0x2A]);
    assert_eq!(p, 42);
    let (ok, q, _) = sismo_config_cpu_decode(&[0x48, 0x07, 0x08, 0x2A]);
    assert!(ok);
    assert_eq!(q, 42);
}

#[test]
fn sismo_config_extract_finds_field_2000() {
    // DataSourceConfig: name(1)="x" then sismo_config(2000) = heap cfg.
    let inner = heap_encode(99, 0, 0);
    let mut dsc = vec![0x0A, 0x01, b'x']; // name field 1, "x"
    // field 2000, wire 2: tag = 2000<<3|2 = 16002 = 0x3E82 -> varint 82 7D.
    dsc.extend_from_slice(&[0x82, 0x7D, inner.len() as u8]);
    dsc.extend_from_slice(&inner);

    let extracted = config_extract(&dsc).expect("field 2000");
    assert_eq!(heap_decode(extracted), (99, 0, 0));
    let (off, len) = sismo_config_extract(&dsc).expect("field 2000");
    let (ok, p, _, _) = sismo_config_heap_decode(&dsc[off..off + len]);
    assert!(ok);
    assert_eq!(p, 99);
}

#[test]
fn extract_absent_is_none() {
    let dsc = [0x0Au8, 0x01, b'x']; // only name, no field 2000
    assert!(config_extract(&dsc).is_none());
}

#[test]
fn extract_absent_returns_false() {
    let dsc = [0x0Au8, 0x01, b'x']; // only name, no field 2000
    assert!(sismo_config_extract(&dsc).is_none());
}

#[test]
fn malformed_config_is_told() {
    // A varint that does not end.
    assert_eq!(sismo_config_cpu_decode(&[0x08, 0x80]), (false, 0, 0));
    let (fields, whole) = decode_varint_fields(&[0x08, 0x05, 0x10, 0x80]);
    assert_eq!(fields, vec![(1, 5)]);
    assert!(!whole);
    assert_eq!(read_varint(&[0x96, 0x01, 0xff]), Some((150, 2)));
    assert_eq!(read_varint(&[]), None);
    // Ten groups hold more than 64 bits: what does not fit is no varint.
    let mut groups = [0xffu8; 10];
    groups[9] = 1;
    assert_eq!(read_varint(&groups), Some((u64::MAX, 10)));
    groups[9] = 2;
    assert_eq!(read_varint(&groups), None);
    let mut padded = [0x80u8; 10];
    padded[9] = 2;
    assert_eq!(read_varint(&padded), None);
    padded[9] = 0;
    assert_eq!(read_varint(&padded), Some((0, 10)));
    let mut reader = ProtoReader::new(&groups);
    assert_eq!(reader.read_varint(), None);
    assert_eq!(reader.pos, 10);
    let mut message = vec![0x08, 0x05, 0x10];
    message.extend_from_slice(&groups);
    assert_eq!(all_fields(&message).len(), 1);
    assert_eq!(skip_field(1, &[0; 8]), Some(8));
    assert_eq!(skip_field(5, &[0; 3]), None);
}

#[test]
fn emit_needs_room_for_all() {
    let mut out = [9u8; 3];
    assert_eq!(emit(&[1, 2], &mut out), 2);
    assert_eq!(out, [1, 2, 9]);
    assert_eq!(emit(&[1, 2, 3, 4], &mut out), 0);
    assert_eq!(out, [1, 2, 9]);
    assert_eq!(sign_extended(-1), u64::MAX);
}
