//! The recorder, its files, and the binaries it looks into.

use sismo::cmd_record::{
    all_registered, external_step, linux_entries, macos_entries, on_wakeups,
    registered_data_sources, resolve_focus, session_trace_config, target_exited, unmet_privileges,
    wakeup, ExternalStep, Held, Os, Plan, Privileged, Reason, Recorder, Release, SourceMode, Step, Wakeup,
};
use sismo::command::cli::{run, Command, Dispatch};
use sismo::crashlog::{crash_line, FieldText};
use sismo::jvmti::clean_name;
use sismo::launcher::{raise_caps, CapWords};
use sismo::macho::dyld_cache::{
    cache_arches, cache_dirs, cache_path, subcache_paths, with_suffixes, CacheFiles, DyldCacheSyms,
    RawImage, RawSegment, RawSym,
};
use sismo::macho::dyld_images::{
    image_array, image_entries, image_path, info_address, mach_header, parse_uuid_and_text_vmsize,
    read_macho, read_macho_meta, ImageList, ERR_EMPTY, ERR_TASK_INFO, ERR_VM_READ, MH_MAGIC_64,
};
use sismo::macho::file_uuid::{file_carries_uuid, identity_is};
use sismo::proto::reader::{all_fields, WireValue};
use sismo::proto::session_config::{KIND_LINUX_FTRACE, KIND_SISMO_VENDOR, KIND_TRACK_EVENT};
use sismo::proto::writer::ProtoWriter;
use sismo::sismo_paths::{
    choose_layout, heap_dylib_layout, lock_body, lock_outcome, read_recorder_pid,
    read_session_meta, write_session_meta, LockError, SessionMeta, HEAP_DYLIB_LAYOUTS,
};
use sismo::smaps_macos::{
    region_from_info, region_info, region_name, smaps_trace_packet, walk_step, RegionInfo,
    WalkStep, SM_PRIVATE, SM_SHARED, VM_REGION_SUBMAP_INFO_BYTES, VM_REGION_SUBMAP_INFO_COUNT_64,
};

#[test]
fn cleans_class_signatures() {
    assert_eq!(clean_name("Ljava/lang/String;", "indexOf"), "java.lang.String::indexOf");
    assert_eq!(clean_name("LWorkload;", "sismo_wl_leaf"), "Workload::sismo_wl_leaf");
    // Defensive: an unexpected signature shape passes through un-mangled.
    assert_eq!(clean_name("[B", "clone"), "[B::clone");
    assert_eq!(clean_name("L", "m"), "L::m");
    assert_eq!(clean_name("La/b", "m"), "La.b::m");
}

#[test]
fn submap_info_layout_matches_header() {
    // pack(4) layout: 76 bytes total, count 19 natural_t's.
    assert_eq!(VM_REGION_SUBMAP_INFO_BYTES, 76);
    assert_eq!(VM_REGION_SUBMAP_INFO_COUNT_64 as usize * 4, 76);
}

fn info(share_mode: u8) -> RegionInfo {
    RegionInfo {
        protection: 0,
        user_tag: 0,
        pages_resident: 10,
        pages_swapped_out: 0,
        pages_dirtied: 4,
        share_mode,
        is_submap: false,
    }
}

#[test]
fn region_split_private_vs_shared() {
    let r = region_from_info(0x1000, 16 * 16384, &info(SM_PRIVATE), 16, b"x".to_vec());
    assert_eq!(r.size_kb, 256);
    assert_eq!(r.private_dirty_kb, 64);
    assert_eq!(r.private_clean_kb, 96);
    assert_eq!(r.shared_dirty_kb, 0);

    let r = region_from_info(0x1000, 16 * 16384, &info(SM_SHARED), 16, b"x".to_vec());
    assert_eq!(r.private_dirty_kb, 0);
    assert_eq!(r.shared_dirty_kb, 64);
    assert_eq!(r.shared_clean_kb, 96);
}

#[test]
fn region_sizes_go_up_to_64_bits() {
    let mut i = info(SM_PRIVATE);
    i.pages_resident = 2;
    i.pages_dirtied = 1;
    let r = region_from_info(0x1000, 0x4000, &i, u64::MAX / 2, b"x".to_vec());
    assert_eq!(r.resident_kb, u64::MAX - 1);
    assert_eq!((r.private_dirty_kb, r.private_clean_kb), (u64::MAX / 2, u64::MAX / 2));
}

#[test]
fn self_walk_produces_a_packet() {
    let mut b = vec![0u8; 76];
    b[24] = 10;
    b[36] = 4;
    b[47] = SM_PRIVATE;
    let i = region_info(&b);
    assert_eq!((i.pages_resident, i.pages_dirtied, i.share_mode, i.is_submap), (10, 4, 2, false));
    let regions: Vec<_> = (0..3)
        .map(|k| {
            let path = region_name(if k == 0 { b"/bin/a".to_vec() } else { vec![] }, k);
            region_from_info(0x1000 * k as u64, 0x4000, &i, 16, path)
        })
        .collect();
    let pkt = smaps_trace_packet(42, 42, &regions).expect("walk");
    // Trace-wrapped: starts with field 1, wire type 2 (0x0a).
    assert_eq!(pkt[0], 0x0a);
    assert!(pkt.len() > 64, "expected multiple entries, got {} bytes", pkt.len());
    assert!(pkt.windows(8).any(|w| w == b"[anon:2]"));
    assert!(smaps_trace_packet(42, 42, &vec![]).is_none());
}

#[test]
fn regions_are_walked_to_the_end() {
    assert_eq!(walk_step(false, false, 1, 2), WalkStep::Stop);
    assert_eq!(walk_step(true, true, 1, 2), WalkStep::Descend);
    assert_eq!(walk_step(true, false, 0x1000, 0x1000), WalkStep::Take(0x2000));
    assert_eq!(walk_step(true, false, 0x1000, 0), WalkStep::TakeLast);
}

#[test]
fn acquire_write_read_release_roundtrip() {
    // What a recorder writes to its lock file reads back as its pid.
    assert!(lock_outcome(true, true).is_ok());
    let body = lock_body(4242);
    assert_eq!(read_recorder_pid(Some(body.as_bytes())), Some(4242));
}

#[test]
fn read_pid_absent_file_is_none() {
    assert_eq!(read_recorder_pid(None), None);
}

#[test]
fn lock_files_that_hold_no_pid_are_passed_over() {
    assert_eq!(read_recorder_pid(Some(b"not a pid\n")), None);
    assert_eq!(read_recorder_pid(Some(&[0xff, 0xfe])), None); // no text
    assert_eq!(read_recorder_pid(Some(" 17 \n".as_bytes())), Some(17));
    assert!(matches!(lock_outcome(false, false), Err(LockError::Open)));
    assert!(matches!(lock_outcome(true, false), Err(LockError::Held)));
}

#[test]
fn session_meta_roundtrip_focus_optional() {
    let text =
        write_session_meta(&SessionMeta { target_pid: 777, focus: Some("memory.dump".into()) });
    let back = read_session_meta(Some(&text)).expect("read");
    assert_eq!(back.target_pid, 777);
    assert_eq!(back.focus.as_deref(), Some("memory.dump"));

    let text = write_session_meta(&SessionMeta { target_pid: 8, focus: None });
    let back = read_session_meta(Some(&text)).expect("read");
    assert_eq!(back.target_pid, 8);
    assert!(back.focus.is_none());

    assert!(read_session_meta(Some("garbage\n")).is_none());
    assert!(read_session_meta(None).is_none());
}

#[test]
fn heap_dylib_path_resolves_to_a_dylib() {
    for i in 0..HEAP_DYLIB_LAYOUTS {
        assert!(heap_dylib_layout(i).ends_with("libsismo_heap.dylib"));
    }
    assert_eq!(choose_layout(&[false, false, true, true]), 2);
    // Where none is there the one of a development install is named.
    assert!(heap_dylib_layout(choose_layout(&[false; 4])).contains("dev-install"));
}

fn plan(os: Os, attach: bool, mode: SourceMode) -> Plan {
    Plan {
        os,
        attach,
        sched: mode,
        cpu: mode,
        heap: mode,
        no_instrumentation: false,
        flight_recorder: false,
    }
}

fn nothing_held() -> Held {
    Held {
        lock: false,
        traced: false,
        probes: false,
        heap: false,
        cpu: false,
        sched: false,
        bpf: false,
        session: false,
        pipe: false,
    }
}

/// The steps of a recording in which all goes well.
fn steps(r: &mut Recorder) -> Vec<Step> {
    let mut seen = vec![r.step];
    while r.step != Step::Record {
        r.advance(true);
        seen.push(r.step);
    }
    seen
}

#[test]
fn a_launched_target_is_recorded_and_all_is_given_back() {
    let mut r = Recorder::new(plan(Os::Macos, false, SourceMode::InProcess));
    let seen = steps(&mut r);
    assert!(seen.contains(&Step::Spawn) && seen.contains(&Step::StartHeap));
    assert!(!seen.contains(&Step::WaitExternal));
    let end = r.finish(true);
    assert_eq!(end[0], Release::StopSession);
    assert_eq!(*end.last().unwrap(), Release::ReleaseLock);
    for once in [Release::ShutdownHeap, Release::ShutdownCpu, Release::ShutdownSched] {
        assert_eq!(end.iter().filter(|x| **x == once).count(), 1);
    }
    assert!(end.contains(&Release::JoinWatch));
}

#[test]
fn a_recording_that_is_cut_short_waits_for_no_target() {
    for attach in [false, true] {
        for byte in [b'I', b'T'] {
            let (wakeups, done) = on_wakeups(attach, &[b'?', byte]);
            assert!(done);
            assert!(!target_exited(&wakeups));
        }
    }
    let (wakeups, done) = on_wakeups(false, b"TX");
    assert!(done && target_exited(&wakeups));
    for os in [Os::Macos, Os::Linux] {
        let mut r = Recorder::new(plan(os, false, SourceMode::InProcess));
        steps(&mut r);
        let (cut, whole) = (r.finish(false), r.finish(true));
        assert_eq!(cut[0], Release::StopSession);
        assert!(!cut.contains(&Release::JoinWatch) && whole.contains(&Release::JoinWatch));
        assert_eq!(cut.len() + 1, whole.len());
        assert_eq!(*cut.last().unwrap(), Release::ReleaseLock);
    }
}

#[test]
fn an_attached_target_is_not_spawned() {
    let mut r = Recorder::new(plan(Os::Macos, true, SourceMode::External));
    let seen = steps(&mut r);
    assert!(!seen.contains(&Step::Spawn));
    assert!(seen.contains(&Step::WaitExternal));
    assert_eq!(wakeup(true, b'I'), Wakeup::StopRecording(Reason::Interrupt));
    assert_eq!(wakeup(false, b'T'), Wakeup::Terminate(Reason::Duration));
    assert_eq!(on_wakeups(false, b"IX"), (vec![Wakeup::Terminate(Reason::Interrupt), Wakeup::Exited], true));
    assert_eq!(on_wakeups(false, b"I?").1, true);
    assert_eq!(on_wakeups(false, b"?").1, false);
    assert_eq!(on_wakeups(true, b"I").1, true);
}

#[test]
fn a_recording_that_fails_gives_back_what_it_holds() {
    let mut r = Recorder::new(plan(Os::Linux, false, SourceMode::InProcess));
    while r.step != Step::Lock {
        r.advance(true);
    }
    let mut refused = Recorder { plan: r.plan, held: r.held, step: r.step };
    refused.advance(false);
    assert_eq!(refused.step, Step::Refused);
    assert!(refused.give_up().is_empty());
    while r.step != Step::CreateSession {
        r.advance(true);
    }
    r.advance(false);
    assert_eq!(r.step, Step::GiveUp);
    let undo = r.give_up();
    assert!(undo.contains(&Release::ShutdownBpf) && undo.contains(&Release::StopProbes));
    assert_eq!(undo.iter().filter(|x| **x == Release::ReleaseLock).count(), 1);
}

#[test]
fn sources_are_those_that_started() {
    let p = plan(Os::Macos, false, SourceMode::InProcess);
    let (none, names) = macos_entries(&p, &nothing_held(), 7);
    assert_eq!(none.len(), 1);
    assert_eq!(none[0].kind, KIND_TRACK_EVENT);
    assert!(names.is_empty());
    let external = plan(Os::Macos, true, SourceMode::External);
    let (all, names) = macos_entries(&external, &nothing_held(), 7);
    assert_eq!(all.len(), 4);
    assert_eq!(all[1].name, b"sismo.heap");
    assert_eq!(
        names,
        vec![
            b"sismo.heap".to_vec(),
            b"sismo.macos_cpu_samples".to_vec(),
            b"sismo.macos_sched".to_vec()
        ]
    );
    let mut held = nothing_held();
    held.probes = true;
    held.bpf = true;
    let kinds: Vec<u32> =
        linux_entries(&plan(Os::Linux, false, SourceMode::InProcess), &held).iter().map(|e| e.kind).collect();
    assert_eq!(kinds, vec![KIND_TRACK_EVENT, KIND_LINUX_FTRACE, KIND_SISMO_VENDOR]);
    let config = session_trace_config(false, 1024, b"/tmp/out", &all).expect("fits");
    assert!(all_fields(&config).iter().any(|(f, v)| *f == 29 && matches!(v, WireValue::Len(b) if *b == b"/tmp/out")));
}

#[test]
fn privileges_are_named_before_the_session() {
    let p = plan(Os::Macos, false, SourceMode::InProcess);
    assert_eq!(
        unmet_privileges(&p, false),
        vec![Privileged::Sched, Privileged::Cpu, Privileged::Heap]
    );
    assert!(unmet_privileges(&p, true).is_empty());
    assert!(unmet_privileges(&plan(Os::Macos, false, SourceMode::External), false).is_empty());
    assert!(matches!(resolve_focus(None), Ok(None)));
    assert!(matches!(resolve_focus(Some(b"cache")), Ok(Some(_))));
    assert!(resolve_focus(Some(b"bogus")).is_err());
}

#[test]
fn externals_are_waited_for() {
    let mut d = ProtoWriter::new();
    d.write_string(1, b"sismo.heap");
    let mut ds = ProtoWriter::new();
    ds.write_message(1, d.bytes());
    let mut state = ProtoWriter::new();
    state.write_message(2, ds.bytes());
    assert_eq!(registered_data_sources(state.bytes()), vec![b"sismo.heap".to_vec()]);
    assert!(all_registered(state.bytes(), &vec![b"sismo.heap".to_vec()]));
    assert!(!all_registered(state.bytes(), &vec![b"sismo.cpu".to_vec()]));
    assert_eq!(external_step(true, 9_999), ExternalStep::Ready);
    assert_eq!(external_step(false, 4_999), ExternalStep::LookAgain(100));
    assert_eq!(external_step(false, 5_000), ExternalStep::TimedOut);
}

#[test]
fn command_lines_come_to_a_command() {
    assert_eq!(run(Ok(Some(Command::Record))), Dispatch::Run(Command::Record));
    assert_eq!(run(Ok(None)), Dispatch::Help);
    assert_eq!(run(Err(2)), Dispatch::Exit(2));
}

#[test]
fn breadcrumbs_are_lines() {
    let field = |name: &str, value: &str| FieldText { name: name.into(), value: value.into() };
    let line = crash_line(1700, 5, 42, &vec![field("message", "started"), field("pid", "7")]);
    assert_eq!(line, "1700 5 42 started pid=7\n");
}

#[test]
fn launcher_lends_three_capabilities() {
    let r = raise_caps(CapWords { low: 1, high: 2 });
    assert_eq!(r, CapWords { low: 1 | 1 << 24, high: 2 | 1 << 6 | 1 << 7 });
}

#[test]
fn image_lists_are_read_from_the_loader() {
    assert_eq!(info_address(false, 5), Err(ERR_TASK_INFO));
    assert_eq!(info_address(true, 0), Err(ERR_EMPTY));
    assert_eq!(info_address(true, 5), Ok(5));
    let mut head = [0u8; 16];
    assert_eq!(image_array(Some(15), &head), Err(ERR_VM_READ));
    assert_eq!(image_array(None, &head), Err(ERR_VM_READ));
    assert_eq!(image_array(Some(16), &head), Err(ERR_EMPTY));
    head[4] = 2;
    head[8] = 0x40;
    assert_eq!(image_array(Some(16), &head), Ok((2, 0x40)));
    let mut entries = [0u8; 50];
    entries[0] = 9;
    entries[8] = 8;
    entries[24] = 7;
    assert_eq!(image_entries(50, &entries), vec![(9, 8), (7, 0)]);
    assert_eq!(image_path(0, None), b"");
    assert_eq!(image_path(1, None), b"?");
    assert_eq!(image_path(1, Some(b"/a\0junk")), b"/a");
    let mut list = ImageList { images: vec![(9, b"b".to_vec()), (7, b"a".to_vec())] };
    list.sort_by_base();
    assert_eq!(list.images()[0].0, 7);
    assert_eq!(list.len(), 2);
    assert!(!list.is_empty());
}

fn segment(name: &[u8], vmaddr: u64, vmsize: u64) -> Vec<u8> {
    let mut s = Vec::new();
    s.extend_from_slice(&0x19u32.to_le_bytes());
    s.extend_from_slice(&72u32.to_le_bytes());
    let mut n = name.to_vec();
    n.resize(16, 0);
    s.extend_from_slice(&n);
    s.extend_from_slice(&vmaddr.to_le_bytes());
    s.extend_from_slice(&vmsize.to_le_bytes());
    s.extend_from_slice(&[0; 32]);
    s
}

fn uuid_command(uuid: [u8; 16]) -> Vec<u8> {
    let mut s = Vec::new();
    s.extend_from_slice(&0x1bu32.to_le_bytes());
    s.extend_from_slice(&24u32.to_le_bytes());
    s.extend_from_slice(&uuid);
    s
}

fn mach_o(commands: &[Vec<u8>]) -> Vec<u8> {
    let body = commands.concat();
    let mut f = Vec::new();
    for v in [MH_MAGIC_64, 0x0100_000c, 2, 6, commands.len() as u32, body.len() as u32, 0, 0] {
        f.extend_from_slice(&v.to_le_bytes());
    }
    f.extend_from_slice(&body);
    f
}

#[test]
fn load_commands_give_identity_and_text() {
    let f = mach_o(&[uuid_command([7; 16]), segment(b"__TEXT", 0, 0x4000)]);
    let h = mach_header(Some(32), &f[..32]).expect("a header");
    assert_eq!((h.cputype, h.cpusubtype, h.ncmds), (0x0100_000c, 2, 2));
    assert_eq!(parse_uuid_and_text_vmsize(&f[32..], h.ncmds), Some(([7; 16], 0x4000)));
    assert_eq!(parse_uuid_and_text_vmsize(&f[32..], 1), None); // the text comes second
    assert_eq!(parse_uuid_and_text_vmsize(&f[32..100], 2), None); // cut off

    let cmds = &f[32..32 + h.sizeofcmds as usize];
    let meta = read_macho_meta(&h, Some(cmds.len()), cmds).expect("commands");
    assert_eq!(meta, ([7; 16], 0x4000));
    assert!(read_macho_meta(&h, Some(cmds.len() - 1), cmds).is_none());
    assert!(read_macho_meta(&h, None, cmds).is_none());
    let image = read_macho(&h, meta, Some(vec![1, 2])).expect("an image");
    assert_eq!((image.text, image.text_vmsize, image.uuid), (vec![1, 2], 0x4000, [7; 16]));
    assert_eq!((image.cputype, image.cpusubtype), (0x0100_000c, 2));
    assert!(read_macho(&h, meta, None).is_none());
}

#[test]
fn images_are_listed_with_their_paths() {
    let entries = vec![(0x3000, 8), (0x1000, 0), (0x2000, 16)];
    let paths = vec![Some(b"/bin/a\0rest".to_vec()), None, None];
    let mut list = ImageList::enumerate(&entries, &paths);
    assert_eq!(
        list.images(),
        &[(0x3000, b"/bin/a".to_vec()), (0x1000, Vec::new()), (0x2000, b"?".to_vec())]
    );
    list.sort_by_base();
    assert_eq!(list.images()[0].0, 0x1000);
}

#[test]
fn read_macho_rejects_non_macho_address() {
    // Nothing could be read there, or no image stands there.
    assert!(mach_header(None, &[0; 32]).is_none());
    assert!(mach_header(Some(31), &mach_o(&[])).is_none());
    assert!(mach_header(Some(32), &[0; 32]).is_none());
}

#[test]
fn files_carry_identities() {
    let want = [9u8; 16];
    let thin = mach_o(&[uuid_command(want)]);
    assert!(file_carries_uuid(Some(&thin), want));
    assert!(!file_carries_uuid(Some(&thin), [8; 16]));
    assert!(!file_carries_uuid(Some(&mach_o(&[segment(b"__TEXT", 0, 1)])), want));
    assert!(!file_carries_uuid(None, want));
    assert!(!file_carries_uuid(Some(b"#!/bin/sh\nexit 0\n# nothing"), want));
    assert_eq!(identity_is(Some(Some(want)), want), Some(true));
    assert_eq!(identity_is(Some(None), want), Some(false));
    assert_eq!(identity_is(None, want), None);
}

#[test]
fn containers_carry_the_identities_of_their_binaries() {
    let want = [9u8; 16];
    let other = mach_o(&[uuid_command([1; 16])]);
    let thin = mach_o(&[uuid_command(want)]);
    // Two binaries, behind a header and two entries of twenty bytes.
    let (a, b) = (8 + 40u32, 8 + 40 + other.len() as u32);
    let mut fat = Vec::new();
    for v in [0xcafe_babeu32, 2, 7, 3, a, other.len() as u32, 0, 0x0100_000c, 2, b, thin.len() as u32, 0] {
        fat.extend_from_slice(&v.to_be_bytes());
    }
    fat.extend_from_slice(&other);
    fat.extend_from_slice(&thin);
    assert!(file_carries_uuid(Some(&fat), want));
    assert!(file_carries_uuid(Some(&fat), [1; 16]));
    assert!(!file_carries_uuid(Some(&fat), [2; 16]));
    // An entry of thirty-two bytes, with 64-bit places.
    let mut wide = Vec::new();
    for v in [0xcafe_babfu32, 1, 0x0100_000c, 2] {
        wide.extend_from_slice(&v.to_be_bytes());
    }
    for v in [40u64, thin.len() as u64, 0] {
        wide.extend_from_slice(&v.to_be_bytes());
    }
    wide.extend_from_slice(&thin);
    assert!(file_carries_uuid(Some(&wide), want));
    assert!(!file_carries_uuid(Some(&wide), [2; 16]));
    // A place outside the file holds nothing.
    wide[16..24].copy_from_slice(&u64::MAX.to_be_bytes());
    assert!(!file_carries_uuid(Some(&wide), want));
}

fn raw(address: u64, name: &str) -> RawSym {
    RawSym { address, is_definition: true, name: Some(name.to_string()) }
}

fn raw_image(symbols: Vec<RawSym>) -> RawImage {
    RawImage {
        uuid: Some([3; 16]),
        segments: vec![
            RawSegment { name: None, address: 5 },
            RawSegment { name: Some("__TEXT".to_string()), address: 0x1000 },
        ],
        symbols,
    }
}

#[test]
fn cache_symbols_resolve_by_place() {
    let mut undefined = raw(0x1050, "_undefined");
    undefined.is_definition = false;
    let image = raw_image(vec![
        raw(0x1100, "_memcpy"),
        raw(0x1010, "__Zfoo"),
        raw(0x1100, "_bcopy"),
        raw(0x500, "_below"),
        raw(0x1040, "_"),
        undefined,
    ]);
    let d = DyldCacheSyms::of_image(&image, [3; 16]).expect("symbols");
    assert_eq!(d.len(), 2);
    assert!(!d.is_empty());
    // One underscore is taken off, and of two names of a place the first counts.
    assert_eq!(d.resolve(0x10), Some(("_Zfoo", 0)));
    assert_eq!(d.resolve(0xff), Some(("_Zfoo", 0xef)));
    assert_eq!(d.resolve(0x104), Some(("bcopy", 4)));
    assert_eq!(d.resolve(0xf), None);
    assert_eq!(d.resolve(u64::MAX), None);
    assert!(DyldCacheSyms::of_image(&image, [4; 16]).is_none());
    assert!(DyldCacheSyms::of_image(&raw_image(vec![]), [3; 16]).is_none());
}

const LIB: &str = "/usr/lib/libx.dylib";

/// A cache of one file with one library, mapped from 0x10000 on.
fn cache(uuid: [u8; 16]) -> Vec<u8> {
    let mut f = vec![0u8; 0x900];
    let put = |f: &mut Vec<u8>, at: usize, b: &[u8]| f[at..at + b.len()].copy_from_slice(b);
    put(&mut f, 0, b"dyld_v1  arm64e\0");
    put(&mut f, 16, &0x100u32.to_le_bytes()); // the mappings
    put(&mut f, 20, &1u32.to_le_bytes());
    put(&mut f, 24, &0x120u32.to_le_bytes()); // the images
    put(&mut f, 28, &1u32.to_le_bytes());
    put(&mut f, 0x100, &0x1_0000u64.to_le_bytes());
    put(&mut f, 0x108, &0x900u64.to_le_bytes());
    put(&mut f, 0x120, &0x1_0400u64.to_le_bytes());
    put(&mut f, 0x138, &0x150u32.to_le_bytes());
    put(&mut f, 0x150, LIB.as_bytes());
    let mut symtab = Vec::new();
    for v in [2u32, 24, 0x800, 2, 0x840, 16] {
        symtab.extend_from_slice(&v.to_le_bytes());
    }
    let image = mach_o(&[
        uuid_command(uuid),
        segment(b"__TEXT", 0x1_0400, 0x400),
        segment(b"__LINKEDIT", 0x1_0800, 0x100),
        symtab,
    ]);
    put(&mut f, 0x400, &image);
    let mut symbols = Vec::new();
    for (name, value) in [(1u32, 0x1_0420u64), (7, 0x1_0440)] {
        symbols.extend_from_slice(&name.to_le_bytes());
        symbols.extend_from_slice(&[0x0f, 1, 0, 0]);
        symbols.extend_from_slice(&value.to_le_bytes());
    }
    put(&mut f, 0x800, &symbols);
    put(&mut f, 0x840, b"\0_atoi\0_strlen\0\0");
    f
}

#[test]
fn libraries_resolve_from_the_cache() {
    let bytes = cache([6; 16]);
    let other = cache([5; 16]);
    let files = |main| CacheFiles { main, subs: vec![] };
    let d = DyldCacheSyms::from_cache_file(&files(&bytes), LIB, [6; 16]).expect("symbols");
    assert_eq!(d.len(), 2);
    assert_eq!(d.resolve(0x24), Some(("atoi", 4)));
    assert_eq!(d.resolve(0x40), Some(("strlen", 0)));
    // The identity decides between the caches, and a wrong one matches none.
    let junk = vec![0u8; 64];
    let all = vec![files(&junk), files(&other), files(&bytes)];
    assert_eq!(DyldCacheSyms::for_dylib(&all, LIB, [6; 16]).unwrap().len(), 2);
    assert!(DyldCacheSyms::for_dylib(&all, LIB, [0xAB; 16]).is_none());
    assert!(DyldCacheSyms::for_dylib(&all, "/usr/lib/liby.dylib", [6; 16]).is_none());
}

#[test]
fn caches_name_their_other_files() {
    assert_eq!(subcache_paths(&cache([6; 16]), "/x/cache"), Some(vec![]));
    assert_eq!(subcache_paths(b"junk", "/x/cache"), None);
    let mut f = vec![0u8; 0x900];
    f[0..16].copy_from_slice(b"dyld_v1  arm64e\0");
    f[16..20].copy_from_slice(&0x1c8u32.to_le_bytes());
    f[392..396].copy_from_slice(&0x300u32.to_le_bytes());
    f[396..400].copy_from_slice(&2u32.to_le_bytes());
    let paths = subcache_paths(&f, "/x/cache").expect("a cache");
    assert_eq!(paths, vec!["/x/cache.1".to_string(), "/x/cache.2".to_string()]);
    assert_eq!(with_suffixes("a", &vec![".b".to_string()]), vec!["a.b".to_string()]);
    let main = cache_path(cache_dirs()[1], cache_arches(true)[0]);
    assert_eq!(main, "/System/Library/dyld/dyld_shared_cache_arm64e");
}
