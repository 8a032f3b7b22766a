//! CPU profiling.

use sismo::cpu::bpf_records::{
    decode_record, Record, SismoHdr, SismoKsymRec, SismoPyframeRec, SismoSampleRec, SismoUnwindRec,
    MODULE_LEN, SAMPLE_LEN, SISMO_EVT_FILE, SISMO_EVT_KSYM, SISMO_EVT_MODULE, SISMO_EVT_OFFCPU,
    SISMO_EVT_SAMPLE,
};
use sismo::cpu::callstack::Lookup;
use sismo::cpu::capture_setup::{
    active_slots, cpus_used, offcpu_program, undo_after, unwind_flag, CaptureSetup, GroupWalk,
    SamplerSummary, SetupFailure, SetupStep, OFFCPU_PROGRAMS,
};
use sismo::cpu::counters::{
    cpuinfo_field, event_of, fallback_counters, leader_config, match_model, read_cpu_id,
    resolve_sampler,
    sampler_attr, sampler_next, select_counters, topdown_enumerated, AttemptResult, CpuId, Event,
    EventType, FocusPreset, Host, Model, Role, SamplerNext, Src, SURVEY_PERIOD,
};
use sismo::cpu::interner::{FrameKey, Interner, Mapping};
use sismo::cpu::jit_map::JitMap;
use sismo::cpu::linux_bpf_capture::{
    find_first_miss, read_snapshot, reparse_due, service_acks, unwind_user_stack, AckAction,
    Capture, Pending, RegionCache, RegionStep, Resolved,
};
use sismo::cpu::lpm::summarize_address_range;
use sismo::cpu::mach_sampler::{
    has_times, stack_regs, strip_pac, thread_cpu_time_us, SampleStep, ThreadSampler,
};
use sismo::cpu::macos_cpu_capture::{thread_kernel_tid, CpuCapture, ListNote};
use sismo::cpu::module_registry::{
    device_major, device_minor, is_unstable, KeepPolicy, ModuleKey, ModuleRegistry, OpenedFile, Platform,
};
use sismo::cpu::python_runtime::{PyDebugOffsets, PythonRuntime};
use sismo::cpu::unwind_tables::{
    can_convert, checked_module_rows, constants_fit, elf_load_bias, exec_mappings_key,
    go_unwind_rows, has_file, module_rows, offsets_in_range, sum_stats, vdso_range, vdso_span,
    Segment, UnwindRow, UnwindStats, UnwindTables, CFA_END_FDE, CFA_OFFSET_DID_NOT_FIT,
    CFA_STACK_POINTER, MAPPING_TYPE_FILE, SISMO_UNWIND_MAX_ROWS,
};
use sismo::jvmti::perf_map_entry;
use sismo::proto::reader::{all_fields, WireValue};
use sismo::proto::sismo_config::cpu_encode;
use sismo::proto::writer::ProtoWriter;

#[test]
fn name_resolves_and_reloads_on_growth() {
    let pid = 77;
    let first = "1000 20 hot_a\n2000 10 hot_b\n";
    let mut m = JitMap::new();
    assert!(m.is_stale(pid, first.len() as u64));
    m.load(pid, first.len() as u64, Some(first));
    assert_eq!(m.name(0x1004).as_deref(), Some("hot_a"));
    assert_eq!(m.name(0x1020), None); // past hot_a's 0x20 bytes
    assert_eq!(m.name(0x2008).as_deref(), Some("hot_b"));
    assert!(!m.is_stale(pid, first.len() as u64));
    // The runtime appends; the next lookup must see the new entry.
    let more = "1000 20 hot_a\n2000 10 hot_b\n3000 8 hot_c\n";
    assert!(m.is_stale(pid, more.len() as u64));
    m.load(pid, more.len() as u64, Some(more));
    assert_eq!(m.name(0x3004).as_deref(), Some("hot_c"));
    // Another process has a map of its own.
    assert!(m.is_stale(pid + 1, more.len() as u64));
}

#[test]
fn agent_lines_are_read_back() {
    let text = [
        perf_map_entry(0x7f00_1000, 0x40, "java.lang.String::indexOf"),
        perf_map_entry(0x10, u64::MAX, "a name with spaces"),
    ]
    .concat();
    assert!(text.starts_with("7f001000 40 java.lang.String::indexOf\n"));
    let mut m = JitMap::default();
    m.load(1, 1, Some(&text));
    assert_eq!(m.name(0x7f00_103f).as_deref(), Some("java.lang.String::indexOf"));
}

#[test]
fn auto_holds_unstable_and_skips_system_paths() {
    for platform in [Platform::Linux, Platform::Macos] {
        assert!(is_unstable("/home/user/build/a.out", platform));
        assert!(is_unstable("/tmp/prog", platform));
        assert!(!is_unstable("/usr/lib/libc.so.6", platform));
        assert!(!is_unstable("/bin/bash", platform));
    }
    assert!(is_unstable("/lib64/ld.so", Platform::Macos));
    assert!(!is_unstable("/lib64/ld.so", Platform::Linux));
    assert!(!is_unstable("/System/Library/x", Platform::Macos));
}

fn mapping_key(pid: u32, base: u64, ino: u64) -> ModuleKey {
    ModuleKey::Mapping { pid, base, dev_major: 0, dev_minor: 0, ino }
}

fn registry(policy: KeepPolicy) -> ModuleRegistry {
    ModuleRegistry::new(policy, Platform::Linux, 0x1234_5678)
}

/// A fresh id that no file carries.
fn mint(reg: &mut ModuleRegistry) -> Vec<u8> {
    let mut id = b"SYN".to_vec();
    id.extend_from_slice(&reg.next_rand().to_le_bytes());
    id
}

#[test]
fn draws_are_those_of_splitmix64() {
    let mut reg = ModuleRegistry::new(KeepPolicy::Nothing, Platform::Linux, 0);
    let first: Vec<u64> = (0..3).map(|_| reg.next_rand()).collect();
    assert_eq!(first, vec![0xe220_a839_7b1d_cdaf, 0x6e78_9e6a_a1b9_65f4, 0x06c4_5d18_8009_454f]);
    let mut all: Vec<u64> = (0..1000).map(|_| reg.next_rand()).collect();
    all.extend(first);
    all.sort();
    all.dedup();
    assert_eq!(all.len(), 1003);
}

#[test]
fn device_numbers_are_taken_apart() {
    for (major, minor) in [(0, 0), (8, 1), (0xfff, 0xff), (0x1234_5678, 0x9abc_def0), (!0, !0)] {
        let dev = libc::makedev(major, minor);
        assert_eq!((device_major(dev), device_minor(dev)), (major, minor));
        assert_eq!(device_major(dev), libc::major(dev));
        assert_eq!(device_minor(dev), libc::minor(dev));
    }
}

fn is_synthetic(id: &[u8]) -> bool {
    id.starts_with(b"SYN")
}

#[test]
fn id_for_mints_once_and_agrees_across_calls() {
    let mut reg = registry(KeepPolicy::Nothing);
    // A real id passes through and is stable.
    let real = [0xde, 0xad, 0xbe, 0xef];
    assert!(!reg.needs_synthetic(mapping_key(7, 0x400000, 0), &real));
    assert_eq!(reg.id_for(mapping_key(7, 0x400000, 0), &real, &[]), real);
    // second call agrees, ignores new hint
    assert_eq!(reg.id_for(mapping_key(7, 0x400000, 0), &[], &[]), real);
    // An id-less module gets a synthetic id, distinct per key.
    assert!(reg.needs_synthetic(mapping_key(7, 0x500000, 0), &[]));
    let (sa, sb, sc) = (mint(&mut reg), mint(&mut reg), mint(&mut reg));
    let a = reg.id_for(mapping_key(7, 0x500000, 0), &[], &sa);
    let b = reg.id_for(mapping_key(8, 0x500000, 0), &[], &sb);
    assert!(is_synthetic(&a) && is_synthetic(&b));
    assert_ne!(a, b);
    assert_eq!(reg.id_for(mapping_key(7, 0x500000, 0), &[], &sc), a); // stable
    // a new inode at the same base is new
    assert_ne!(reg.id_for(mapping_key(7, 0x500000, 1), &[], &sc), a);
}

/// Register a module whose file is `opened`, as it would be by its path.
fn register(
    reg: &mut ModuleRegistry,
    key: ModuleKey,
    hint: &[u8],
    path: &str,
    opened: Option<OpenedFile>,
) -> Vec<u8> {
    let synthetic = mint(reg);
    let r = reg.register(key, hint, path, false, &synthetic);
    if r.open {
        reg.register_opened(key, hint, false, false, false, opened, None);
    }
    r.build_id
}

/// Register a module exactly: the file must be the mapped one, and carry its id.
fn register_exact(
    reg: &mut ModuleRegistry,
    key: ModuleKey,
    hint: &[u8],
    path: &str,
    opened: Option<OpenedFile>,
    elf_id: Option<&[u8]>,
) -> Vec<u8> {
    let synthetic = mint(reg);
    let r = reg.register(key, hint, path, true, &synthetic);
    if r.open {
        reg.register_opened(key, hint, true, true, true, opened, elf_id);
    }
    r.build_id
}

#[test]
fn register_pins_fd_and_survives_deletion() {
    let path = "/tmp/sismo-reg/prog"; // unstable path → auto holds it
    let mut reg = registry(KeepPolicy::Auto);
    let key = mapping_key(42, 0x400000, 0);
    // No identity in the hint → synthetic id, and a held fd.
    let file = Some(OpenedFile { dev: 1, ino: 2 });
    let id = register(&mut reg, key, &[], path, file);
    assert!(is_synthetic(&id));
    assert_eq!(reg.held_count(), 1);
    let unused = mint(&mut reg);
    assert_eq!(reg.id_for(key, &[], &unused), id); // any later observer agrees
    // Re-registration adds no second fd.
    let file = Some(OpenedFile { dev: 1, ino: 2 });
    assert_eq!(register(&mut reg, key, &[], path, file), id);
    assert_eq!(reg.held_count(), 1);
    assert!(reg.held_ids().contains(&(id, (1, 2))));
}

#[test]
fn file_keys_dedupe_by_inode_and_survive_deletion() {
    let path = "/tmp/sismo-reg-file/prog"; // unstable path → auto holds it
    let real = [1u8, 2, 3, 4]; // pretend a real identity (e.g. an LC_UUID)
    let key = ModuleKey::for_file(path, Some((1, 2)));
    let mut reg = registry(KeepPolicy::Auto);
    let file = Some(OpenedFile { dev: 1, ino: 2 });
    assert_eq!(register(&mut reg, key, &real, path, file), real); // passes through unchanged
    assert_eq!(reg.held_count(), 1);
    // Re-observing the same file dedupes: same key, same id, no second fd.
    let file = Some(OpenedFile { dev: 1, ino: 2 });
    assert_eq!(register(&mut reg, key, &real, path, file), real);
    assert_eq!(reg.held_count(), 1);
    assert_eq!(reg.held_ids(), vec![(real.to_vec(), (1, 2))]);
}

#[test]
fn transient_pin_failure_retries_on_later_registration() {
    let path = "/tmp/sismo-reg-retry/late";
    let key = ModuleKey::File { dev: 0, ino: 42 };
    let mut reg = registry(KeepPolicy::Auto);
    let id = register(&mut reg, key, &[], path, None);
    assert_eq!(reg.held_count(), 0);
    assert!(reg.needs_exact_retry(key, &[], path));
    let file = Some(OpenedFile { dev: 3, ino: 42 });
    assert_eq!(register(&mut reg, key, &[], path, file), id);
    assert_eq!(reg.held_count(), 1);
    assert!(!reg.needs_exact_retry(key, &[], path));
}

#[test]
fn retry_aliases_a_late_real_build_id_to_the_retained_fd() {
    let path = "/tmp/sismo-reg-late-build-id/late-elf";
    let key = ModuleKey::File { dev: 0, ino: 84 };
    let mut reg = registry(KeepPolicy::All);
    let synthetic = register_exact(&mut reg, key, &[], path, None, None);
    assert!(is_synthetic(&synthetic));
    assert_eq!(reg.held_count(), 0);

    let real = [9u8; 20];
    let file = Some(OpenedFile { dev: 3, ino: 84 });
    assert_eq!(register_exact(&mut reg, key, &real, path, file, Some(&real)), synthetic);
    let held = reg.held_ids();
    assert!(held.contains(&(synthetic, (3, 84))));
    assert!(
        held.contains(&(real.to_vec(), (3, 84))),
        "kernel build-id must find the retained fd"
    );
}

#[test]
fn distinct_files_get_distinct_synthetic_ids() {
    let (pa, pb) = ("/tmp/sismo-reg-syn/a", "/tmp/sismo-reg-syn/b");
    let (ka, kb) = (ModuleKey::for_file(pa, Some((1, 2))), ModuleKey::for_file(pb, Some((1, 3))));
    let mut reg = registry(KeepPolicy::Nothing);
    let ida = register(&mut reg, ka, &[], pa, None); // no real identity
    let idb = register(&mut reg, kb, &[], pb, None);
    assert!(is_synthetic(&ida) && is_synthetic(&idb));
    assert_ne!(ida, idb); // distinct files → distinct ids
    assert_eq!(register(&mut reg, ka, &[], pa, None), ida); // stable per inode
    // Files that cannot be looked at are told apart by their paths.
    assert!(ModuleKey::for_file(pa, None) != ModuleKey::for_file(pb, None));
}

#[test]
fn exact_open_file_transfers_ownership_after_path_deletion() {
    let dev = libc::makedev(8, 3);
    let real = [5u8; 20];
    let key = ModuleKey::Mapping { pid: 1, base: 0x2800, dev_major: 8, dev_minor: 3, ino: 77 };
    let mut reg = registry(KeepPolicy::All);
    let file = Some(OpenedFile { dev, ino: 77 });
    register_exact(&mut reg, key, &real, "/tmp/gone", file, Some(&real));
    assert_eq!(reg.held_count(), 1);
    assert!(reg.held_ids().contains(&(real.to_vec(), (dev, 77))));
}

#[test]
fn exact_registration_rejects_a_replacement_with_the_same_build_id() {
    let dev = libc::makedev(8, 3);
    let real = [5u8; 20];
    let key = ModuleKey::Mapping { pid: 1, base: 0x3000, dev_major: 8, dev_minor: 3, ino: 77 };
    let mut reg = registry(KeepPolicy::All);
    let replacement = Some(OpenedFile { dev, ino: 78 });
    register_exact(&mut reg, key, &real, "/tmp/module", replacement, Some(&real));
    assert_eq!(reg.held_count(), 0, "replacement inode must not be retained");
    // Nor is a file of another device.
    let elsewhere = Some(OpenedFile { dev: libc::makedev(9, 3), ino: 77 });
    register_exact(&mut reg, key, &real, "/tmp/module", elsewhere, Some(&real));
    assert_eq!(reg.held_count(), 0);
    let elsewhere = Some(OpenedFile { dev: libc::makedev(8, 4), ino: 77 });
    register_exact(&mut reg, key, &real, "/tmp/module", elsewhere, Some(&real));
    assert_eq!(reg.held_count(), 0);
}

#[test]
fn exact_registration_verifies_real_build_id() {
    let dev = libc::makedev(8, 3);
    let path = "/proc/self/exe";
    let real = vec![5u8; 20];
    let mut reg = registry(KeepPolicy::All);
    let key = |base| ModuleKey::Mapping { pid: 1, base, dev_major: 8, dev_minor: 3, ino: 77 };
    let file = || Some(OpenedFile { dev, ino: 77 });
    register_exact(&mut reg, key(0x1000), &real, path, file(), Some(&real));
    assert_eq!(reg.held_count(), 1);
    assert_eq!(reg.display_path(&real), Some(path));

    let mut wrong = real.clone();
    wrong[0] ^= 0xff;
    register_exact(&mut reg, key(0x2000), &wrong, path, file(), Some(&real));
    // Same inode was already retained; identity verification is required
    // before aliases can attach to it, so the wrong id gets no fd path.
    assert!(!reg.held_ids().iter().any(|(id, _)| *id == wrong));
}

#[test]
fn fd_cap_is_explicit_and_deterministic() {
    let (a, b) = ("/tmp/sismo-reg-cap/a", "/tmp/sismo-reg-cap/b");
    let mut reg = registry(KeepPolicy::All);
    reg.fd_cap = 1;
    let (ka, kb) = (ModuleKey::for_file(a, Some((1, 1))), ModuleKey::for_file(b, Some((1, 2))));
    register(&mut reg, ka, &[], a, Some(OpenedFile { dev: 1, ino: 1 }));
    register(&mut reg, kb, &[], b, Some(OpenedFile { dev: 1, ino: 2 }));
    assert_eq!(reg.held_count(), 1);
}

#[test]
fn none_policy_ids_but_holds_nothing() {
    let mut reg = registry(KeepPolicy::Nothing);
    let path = "/tmp/whatever-nonexistent";
    let key = ModuleKey::for_file(path, None);
    let id = register(&mut reg, key, &[9, 9], path, Some(OpenedFile { dev: 1, ino: 1 }));
    assert_eq!(id, vec![9, 9]); // still assigns the id
    assert_eq!(reg.held_count(), 0); // but holds no fd
    assert!(reg.held_ids().is_empty());
}

#[test]
fn policies_have_names() {
    assert_eq!(KeepPolicy::parse("none"), Some(KeepPolicy::Nothing));
    assert_eq!(KeepPolicy::parse("auto"), Some(KeepPolicy::Auto));
    assert_eq!(KeepPolicy::parse("all"), Some(KeepPolicy::All));
    assert_eq!(KeepPolicy::parse("some"), None);
}

#[test]
fn summarize_matches_lightswitch_semantics() {
    // Every address in [low, high] must be covered by exactly one block.
    let (low, high) = (0x7f001234u64, 0x7f00abcdu64);
    let blocks = summarize_address_range(low, high);
    for addr in (low..=high).step_by(97) {
        let covering = blocks
            .iter()
            .filter(|(base, prefix)| {
                let bits = 64 - prefix;
                (addr >> bits) == (base >> bits)
            })
            .count();
        assert_eq!(covering, 1, "addr {addr:#x}");
    }
    assert_eq!(summarize_address_range(0x1000, 0x1fff), vec![(0x1000, 52)]);
}

#[test]
fn no_shorter_list_of_blocks_holds_a_range() {
    // The blocks of four bits, as bit sets of the addresses that they hold.
    let mut all: Vec<u16> = Vec::new();
    for n in 0..4u32 {
        let size = 1u32 << n;
        for k in 0..(16 / size) {
            all.push((((1u32 << size) - 1) << (k * size)) as u16);
        }
    }
    all.push(u16::MAX);
    // The fewest blocks that hold just the addresses of a set.
    let mut fewest = vec![u32::MAX; 1 << 16];
    fewest[0] = 0;
    for set in 1..(1usize << 16) {
        for b in all.iter().filter(|b| **b as usize & !set == 0) {
            let rest = fewest[set & !(*b as usize)];
            fewest[set] = fewest[set].min(rest.saturating_add(1));
        }
    }
    for low in 0..16u64 {
        for high in low..16u64 {
            let set: usize = (low..=high).map(|a| 1usize << a).sum();
            assert_eq!(summarize_address_range(low, high).len() as u32, fewest[set]);
        }
    }
    // The last addresses there are.
    assert_eq!(summarize_address_range(u64::MAX - 2, u64::MAX).len(), 2);
}

/// One section header of a 64-bit ELF file.
fn section(name: u32, kind: u32, addr: u64, offset: u64, size: u64) -> Vec<u8> {
    let mut s = Vec::new();
    s.extend_from_slice(&name.to_le_bytes());
    s.extend_from_slice(&kind.to_le_bytes());
    s.extend_from_slice(&0u64.to_le_bytes());
    for v in [addr, offset, size] {
        s.extend_from_slice(&v.to_le_bytes());
    }
    s.extend_from_slice(&[0; 8]);
    s.extend_from_slice(&1u64.to_le_bytes());
    s.extend_from_slice(&0u64.to_le_bytes());
    s
}

/// A shared object with one function at 0x1000, 16 bytes long: its first
/// instruction pushes rbp.
fn elf_with_unwind_info() -> Vec<u8> {
    // One byte further: rsp + 16, rbp at the frame address - 16.
    elf_with(62, &[0x41, 0x0e, 16, 0x86, 2, 0])
}

/// A shared object for a machine, with one function at 0x1000 and what its unwind
/// information says of it.
fn elf_with(machine: u16, instructions: &[u8]) -> Vec<u8> {
    let mut cie = vec![0, 0, 0, 0, 1, b'z', b'R', 0, 1, 0x78, 16, 1, 0];
    // The frame address is rsp + 8, the return address stands just below it.
    cie.extend_from_slice(&[0x0c, 7, 8, 0x90, 1, 0, 0]);
    let mut eh = (cie.len() as u32).to_le_bytes().to_vec();
    eh.extend_from_slice(&cie);
    let mut fde = Vec::new();
    fde.extend_from_slice(&(eh.len() as u32 + 4).to_le_bytes());
    fde.extend_from_slice(&0x1000u64.to_le_bytes());
    fde.extend_from_slice(&0x10u64.to_le_bytes());
    fde.push(0);
    fde.extend_from_slice(instructions);
    eh.extend_from_slice(&(fde.len() as u32).to_le_bytes());
    eh.extend_from_slice(&fde);
    eh.extend_from_slice(&[0; 4]);

    let names = b"\0.text\0.eh_frame\0.shstrtab\0";
    let text_at = 64u64;
    let eh_at = text_at + 16;
    let names_at = eh_at + eh.len() as u64;
    let sections_at = names_at + names.len() as u64;

    let mut f = vec![0x7f, b'E', b'L', b'F', 2, 1, 1, 0, 0, 0, 0, 0, 0, 0, 0, 0];
    f.extend_from_slice(&3u16.to_le_bytes());
    f.extend_from_slice(&machine.to_le_bytes());
    f.extend_from_slice(&1u32.to_le_bytes());
    f.extend_from_slice(&0u64.to_le_bytes());
    f.extend_from_slice(&0u64.to_le_bytes());
    f.extend_from_slice(&sections_at.to_le_bytes());
    f.extend_from_slice(&0u32.to_le_bytes());
    for v in [64u16, 0, 0, 64, 4, 3] {
        f.extend_from_slice(&v.to_le_bytes());
    }
    f.extend_from_slice(&[0x90; 16]);
    f.extend_from_slice(&eh);
    f.extend_from_slice(names);
    f.extend_from_slice(&section(0, 0, 0, 0, 0));
    f.extend_from_slice(&section(1, 1, 0x1000, text_at, 16));
    f.extend_from_slice(&section(7, 1, 0x2000, eh_at, eh.len() as u64));
    f.extend_from_slice(&section(17, 3, 0, names_at, names.len() as u64));
    f
}

#[test]
fn unwind_rows_come_from_the_eh_frame() {
    let image = elf_with_unwind_info();
    let (rows, load) = module_rows(0x40_0000, None, &image).expect("rows");
    assert_eq!(load, 0x40_0000);
    assert!(rows.len() >= 2);
    assert_eq!((rows[0].pc, rows[0].cfa_type, rows[0].cfa_offset), (0x1000, CFA_STACK_POINTER, 8));
    assert_eq!(
        (rows[1].pc, rows[1].cfa_type, rows[1].cfa_offset),
        (0x1001, CFA_STACK_POINTER, 16)
    );
    assert_eq!(rows[1].rbp_offset, -16);
    // Go's own tables come first, and an image that is none has no rows.
    let go = go_unwind_rows(&vec![(0x10, Some(0))]);
    let (go_rows, base) = module_rows(0x40_0000, go, &image).unwrap();
    assert_eq!((go_rows.len(), base), (1, 0x40_0000));
    assert!(module_rows(0x40_0000, None, b"not an image at all").is_none());
    assert!(can_convert(&image, None));
    assert!(checked_module_rows(0x40_0000, None, b"not an image at all").unwrap().is_none());
}

/// The frame address is the register 31 and 16, the registers 29 and 30 stand at the
/// offsets -16 and -8 from it.
const ARM_FRAME: [u8; 8] = [0x41, 0x0c, 31, 16, 0x9d, 2, 0x9e, 1];

#[test]
fn unwind_rows_of_arm64_come_from_the_eh_frame() {
    let image = elf_with(183, &ARM_FRAME);
    assert!(can_convert(&image, None));
    let (rows, load) = checked_module_rows(0x40_0000, None, &image).unwrap().expect("rows");
    assert_eq!(load, 0x40_0000);
    assert_eq!(
        (rows[1].pc, rows[1].cfa_type, rows[1].cfa_offset),
        (0x1001, CFA_STACK_POINTER, 16)
    );
    assert_eq!(rows[1].rbp_offset, -16);
}

#[test]
fn offsets_that_may_not_fit_are_left_out_on_arm64() {
    // -8 times 2^60 is the least number of 64 bits.
    let far = [0x9e, 0x80, 0x80, 0x80, 0x80, 0x80, 0x80, 0x80, 0x80, 0x10];
    assert!(checked_module_rows(0, None, &elf_with(183, &far)).is_none());
    // On x86-64 no offset is subtracted from another.
    assert!(checked_module_rows(0, None, &elf_with(62, &far)).unwrap().is_some());
    // Go's own tables need no conversion.
    let go = go_unwind_rows(&vec![(0x10, Some(0))]);
    assert!(checked_module_rows(0, go, &elf_with(183, &far)).unwrap().is_some());
    // Half of it is far enough from the end.
    let near = [0x9e, 0x80, 0x80, 0x80, 0x80, 0x80, 0x80, 0x80, 0x80, 0x08];
    assert!(checked_module_rows(0, None, &elf_with(183, &near)).unwrap().is_some());
    let mut b = vec![0, 0, 0, 0, 1, 0, 1, 0x78];
    b.extend_from_slice(&far);
    assert!(!offsets_in_range(&b));
    // The signed number counts too: -8 times -2^60 is just as far.
    b[17] = 0x70;
    assert!(!offsets_in_range(&b));
    b[17] = 0x08;
    assert!(offsets_in_range(&b));
    b[17] = 0x10;
    // Without a common information entry there is no offset.
    b[4] = 2;
    assert!(offsets_in_range(&b));
}

/// The frame address as `*(rsp + 8)` and two constants.
fn two_constants(first: &[u8], second: &[u8]) -> Vec<u8> {
    let mut e = vec![0x77, 8, 0x06, 0x23];
    e.extend_from_slice(first);
    e.push(0x23);
    e.extend_from_slice(second);
    let mut i = vec![0x0f, e.len() as u8];
    i.extend_from_slice(&e);
    i
}

#[test]
fn constants_that_do_not_add_up_are_left_out() {
    let huge = [0x80, 0x80, 0x80, 0x80, 0x80, 0x80, 0x80, 0x80, 0x80, 1];
    let rows_of = |first: &[u8], second: &[u8]| {
        checked_module_rows(0, None, &elf_with(62, &two_constants(first, second)))
    };
    let (rows, _) = rows_of(&[8], &[16]).unwrap().unwrap();
    assert_eq!((rows[0].pc, rows[0].cfa_offset), (0x1000, (8 << 8) | 24));
    assert!(rows_of(&huge, &huge).is_none());
    let (rows, _) = rows_of(&[8], &huge).unwrap().unwrap();
    assert_eq!((rows[0].pc, rows[0].cfa_offset), (0x1000, (8 << 8) | 8));
    // The largest sum that fits is 2^64 - 1.
    let large = [0xff, 0xff, 0xff, 0xff, 0xff, 0xff, 0xff, 0xff, 0x7f];
    assert!(rows_of(&large, &huge).unwrap().is_some());
    assert!(rows_of(&huge, &large).unwrap().is_some());
    let mut b = vec![0u8, 0x23];
    b.extend_from_slice(&huge);
    assert!(constants_fit(&b));
    b.push(0x23);
    b.extend_from_slice(&huge);
    assert!(!constants_fit(&b));
    // A number of more than 64 bits is none.
    b[22] = 2;
    assert!(constants_fit(&b));
    b[11] = 1;
    b.truncate(11);
    assert!(constants_fit(&b));
    assert!(constants_fit(&[]));
}

fn row(pc: u64) -> UnwindRow {
    UnwindRow { pc, cfa_type: CFA_STACK_POINTER, rbp_type: 0, cfa_offset: 8, rbp_offset: 0 }
}

#[test]
fn installed_rows_are_found_by_their_pages() {
    let mut t = UnwindTables::new(7);
    let rows = vec![row(0x1_0004), row(0x1_0008), row(0x2_0000)];
    let plan = t
        .install_rows(5, 0x40_0000, &rows, &vec![(0x41_0000, 0x42_0000)], MAPPING_TYPE_FILE)
        .expect("room");
    assert_eq!(plan.start, 0);
    assert_eq!(plan.rows.len(), 3);
    assert_eq!((plan.rows[1].pc_low, plan.rows[1].cfa_offset), (8, 8));
    assert_eq!(plan.pages.len(), 2);
    assert_eq!(
        (plan.pages[0].executable_id, plan.pages[0].file_offset),
        (5, 0x1_0000)
    );
    assert_eq!((plan.pages[0].low_index, plan.pages[0].high_index), (0, 2));
    assert_eq!((plan.pages[1].low_index, plan.pages[1].high_index), (2, 3));
    assert!(plan.mappings.iter().all(|m| m.mapping.load_address == 0x40_0000));
    assert_eq!(plan.mappings[0].key, exec_mappings_key(7, 0x41_0000));
    // The next module's rows follow.
    let next = t.install_rows(6, 0, &rows, &vec![], MAPPING_TYPE_FILE).unwrap();
    assert_eq!(next.start, 3);
    assert_eq!((next.pages[0].low_index, next.pages[0].high_index), (3, 5));
    t.installed(3);
    assert_eq!((t.modules_loaded, t.rows_loaded), (1, 3));
    // There is no room for more than the table holds.
    t.next_row = SISMO_UNWIND_MAX_ROWS - 2;
    assert!(t.install_rows(8, 0, &rows, &vec![], MAPPING_TYPE_FILE).is_none());
    assert!(t.install_rows(8, 0, &vec![], &vec![], MAPPING_TYPE_FILE).is_none());
}

#[test]
fn modules_are_loaded_once() {
    let seg = |base: u64, start: u64, path: &str| Segment {
        base_avma: base,
        start,
        end: start + 0x1000,
        path: path.to_string(),
    };
    let mut t = UnwindTables::new(7);
    let segs = vec![
        seg(0x1000, 0x1000, "/bin/a"),
        seg(0x1000, 0x3000, "/bin/a"),
        seg(0x9000, 0x9000, "[vdso]"),
    ];
    let loads = t.load_all(&segs);
    assert_eq!(loads.len(), 2);
    assert!(has_file(&loads[0].path) && !has_file(&loads[1].path));
    assert_eq!(loads[0].base_avma, 0x1000);
    assert_eq!(loads[0].ranges, vec![(0x1000, 0x2000), (0x3000, 0x4000)]);
    assert!(t.load_all(&segs).is_empty());
    assert!(!t.mark_loaded(0x1000));
}

#[test]
fn go_frames_give_rows() {
    let rows = go_unwind_rows(&vec![(0x10, Some(24)), (0x20, Some(-1)), (0x30, None)]).unwrap();
    assert_eq!((rows[0].cfa_type, rows[0].cfa_offset), (CFA_STACK_POINTER, 32));
    assert_eq!(rows[1].cfa_type, CFA_OFFSET_DID_NOT_FIT);
    assert_eq!(rows[2].cfa_type, CFA_END_FDE);
    assert!(go_unwind_rows(&vec![]).is_none());
}

#[test]
fn vdso_stands_for_the_targets() {
    let maps = "1000-2000 r-xp 0 00:00 0 /bin/a\n7fff1000-7fff3000 r-xp 0 00:00 0 [vdso]\n";
    assert_eq!(vdso_range(maps), Some((0x7fff1000, 0x7fff3000)));
    assert_eq!(vdso_range("1000-2000 r-xp 0 00:00 0 /bin/a\n"), None);
    assert_eq!(vdso_span((0x1000, 0x3000), 0x7000, Some((0x7000, 0x8000))), Some(0x1000));
    assert_eq!(vdso_span((0x1000, 0x1800), 0x7000, Some((0x7000, 0x8000))), Some(0x800));
    assert_eq!(vdso_span((0x1000, 0x3000), 0x6000, Some((0x7000, 0x8000))), None);
    assert_eq!(elf_load_bias(&elf_with_unwind_info(), 9), Some(9));
    assert_eq!(elf_load_bias(b"no", 9), None);
}

#[test]
fn unwind_stats_are_summed_over_cpus() {
    let a = UnwindStats { total: 3, success: 2, ..UnwindStats::default() };
    let b = UnwindStats { total: 4, truncated: 1, ..UnwindStats::default() };
    let s = sum_stats(&vec![a, b]);
    assert_eq!((s.total, s.success, s.truncated), (7, 2, 1));
}

fn hdr(kind: u32, tid: u32, nr_frames: u32) -> SismoHdr {
    SismoHdr {
        kind,
        tid,
        pid: 100,
        cpu: 2,
        timebase: 0,
        nr_frames,
        nr_kernel_frames: 0,
        nr_py_frames: 0,
        ts: 1_000,
    }
}

fn sample(kind: u32, tid: u32, pcs: &[u64]) -> SismoSampleRec {
    let mut stack = pcs.to_vec();
    stack.resize(64, 0);
    SismoSampleRec {
        hdr: hdr(kind, tid, pcs.len() as u32),
        data_addr: 0,
        counters: vec![0; 12],
        stack,
        kernel_ids: vec![0; 64],
        py_ids: vec![0; 16],
    }
}

fn resolved(pcs: &[u64]) -> Resolved {
    Resolved {
        maps_known: true,
        py_frames: vec![],
        pcs: pcs.to_vec(),
        lookups: pcs
            .iter()
            .map(|_| {
                Lookup::Mapped(Mapping {
                    start: 0x1000,
                    end: 0x9000,
                    offset: 0,
                    base_avma: 0x1000,
                    path: b"/bin/a".to_vec(),
                    build_id: vec![1, 2, 3],
                })
            })
            .collect(),
    }
}

fn capture() -> Capture {
    Capture::new(fallback_counters(true), vec![0, 1], None)
}

#[test]
fn samples_are_emitted_while_a_session_is_active() {
    let mut c = capture();
    let found = resolved(&[0x1010, 0x1020]);
    let rec = sample(SISMO_EVT_SAMPLE, 7, &[0x1010, 0x1020]);
    assert!(c.has_room(&found));
    assert!(c.process_sample(&rec, &found, b"").is_empty());
    c.on_start();
    let packets = c.process_sample(&rec, &found, b"");
    assert_eq!(packets.len(), 2);
    assert!(packets[0].windows(10).any(|w| w == b"cpu-cycles"));
    assert!(packets[1].windows(6).any(|w| w == b"/bin/a"));
    assert!(matches!(all_fields(&packets[1])[0], (8, WireValue::Varint(1_000))));
    // What is in the tables is not written again.
    let more = c.process_sample(&rec, &found, b"");
    assert_eq!(more.len(), 1);
    assert!(more[0].len() < packets[1].len());
    assert_eq!(c.stats().samples, 3);
    assert_eq!(c.stats().threads, 1);
    c.on_stopped();
    assert!(c.process_sample(&rec, &found, b"").is_empty());
    // A new session starts its sequence afresh.
    c.on_start();
    assert_eq!(c.process_sample(&rec, &found, b"").len(), 2);
}

#[test]
fn offcpu_samples_have_a_sequence_of_their_own() {
    let mut c = capture();
    c.on_start();
    let mut rec = sample(SISMO_EVT_OFFCPU, 7, &[0x1010]);
    rec.data_addr = 5_000;
    let packets = c.handle_offcpu(&rec, &resolved(&[0x1010]));
    assert_eq!(packets.len(), 2);
    assert!(packets[0].windows(10).any(|w| w == b"off-cpu-ns"));
    let s = c.stats();
    assert_eq!((s.offcpu_samples, s.offcpu_ns, s.samples), (1, 5_000, 0));
}

fn named(mut name: Vec<u8>, len: usize) -> Vec<u8> {
    name.resize(len, 0);
    name
}

#[test]
fn names_are_kept_as_they_come_first() {
    let mut c = capture();
    let k = SismoKsymRec { id: 4, name: named(b"do_work+0x10".to_vec(), 96) };
    assert!(matches!(c.handle(Record::Ksym(k)), Pending::Nothing));
    assert_eq!(c.ksym_names[&4], b"do_work");
    let again = SismoKsymRec { id: 4, name: named(b"other".to_vec(), 96) };
    c.handle_ksym(&again);
    assert_eq!(c.ksym_names[&4], b"do_work");
    let f = SismoKsymRec { id: 5, name: named(b"libc+x".to_vec(), 96) };
    c.handle(Record::File(f));
    assert_eq!(c.file_names[&5], b"libc+x");
    let p = SismoPyframeRec { id: 6, name: named(b"mod.fn".to_vec(), 128) };
    c.handle(Record::PyFrame(p));
    let mut rec = sample(SISMO_EVT_SAMPLE, 1, &[]);
    rec.hdr.nr_py_frames = 2;
    rec.py_ids[0] = 6;
    rec.py_ids[1] = 99;
    // Until the in-kernel walk is armed the host's walk counts.
    assert_eq!(c.python_frames(&rec, vec![b"host".to_vec()]), vec![b"host".to_vec()]);
    c.python_armed(0);
    assert_eq!(c.python_frames(&rec, vec![b"host".to_vec()]), vec![b"mod.fn".to_vec()]);
    assert!(matches!(c.handle(Record::Sample(rec)), Pending::Sample(_)));
}

#[test]
fn module_ids_are_emitted_again_once_known() {
    let mut c = capture();
    c.on_start();
    let found = resolved(&[0x1010]);
    c.process_sample(&sample(SISMO_EVT_SAMPLE, 1, &[0x1010]), &found, b"");
    let packet = c.handle_module(0x1000, &[9, 9]).expect("a mapping that was emitted changes");
    assert!(packet.windows(2).any(|w| w == [9, 9]));
    assert_eq!(c.real_build_id(0x1000, &[1, 2, 3]), vec![9, 9]);
    assert_eq!(c.real_build_id(0x7000, &[1, 2, 3]), vec![1, 2, 3]);
}

#[test]
fn records_are_decoded_whole() {
    let mut b = vec![0u8; SAMPLE_LEN];
    b[0..4].copy_from_slice(&SISMO_EVT_SAMPLE.to_le_bytes());
    b[4..8].copy_from_slice(&7u32.to_le_bytes());
    b[20..24].copy_from_slice(&1u32.to_le_bytes());
    b[32..40].copy_from_slice(&99u64.to_le_bytes());
    b[144..152].copy_from_slice(&0xabcdu64.to_le_bytes());
    match decode_record(&b) {
        Some(Record::Sample(s)) => {
            assert_eq!((s.hdr.tid, s.hdr.ts), (7, 99));
            assert_eq!(s.user_stack(), vec![0xabcd]);
        },
        _ => panic!("a sample"),
    }
    assert!(decode_record(&b[..SAMPLE_LEN - 1]).is_none());
    let mut k = vec![0u8; 104];
    k[0] = SISMO_EVT_KSYM as u8;
    k[4] = 3;
    assert!(matches!(decode_record(&k), Some(Record::Ksym(r)) if r.id == 3));
    k[0] = SISMO_EVT_FILE as u8;
    assert!(matches!(decode_record(&k), Some(Record::File(_))));
    k[0] = 200;
    assert!(matches!(decode_record(&k), Some(Record::Other)));
    let mut m = vec![0u8; MODULE_LEN];
    m[0] = SISMO_EVT_MODULE as u8;
    m[8] = 0x42;
    assert!(matches!(decode_record(&m), Some(Record::Module(r)) if r.base == 0x42));
}

fn unwind(stack_len: u32, pcs: &[u64]) -> SismoUnwindRec {
    let mut stack_bytes = vec![0u8; 8192];
    stack_bytes[8..16].copy_from_slice(&0x77u64.to_le_bytes());
    SismoUnwindRec {
        sample: sample(4, 1, pcs),
        regs_ip: 1,
        regs_sp: 0x7000,
        regs_bp: 0,
        stack_len,
        stack_trunc: 0,
        stack_bytes,
    }
}

#[test]
fn the_longer_walk_is_preferred() {
    let go = || Some(vec![1, 2, 3]);
    assert_eq!(unwind_user_stack(&unwind(0, &[9]), go(), None), vec![9]);
    assert_eq!(unwind_user_stack(&unwind(16, &[9]), go(), None), vec![1, 2, 3]);
    assert_eq!(unwind_user_stack(&unwind(16, &[9, 8, 7]), go(), Some(vec![1; 4])), vec![1; 4]);
    assert_eq!(unwind_user_stack(&unwind(16, &[9, 8, 7]), go(), None), vec![9, 8, 7]);
    let rec = unwind(16, &[]);
    assert_eq!(read_snapshot(&rec, 0x7008), Some(0x77));
    assert_eq!(read_snapshot(&rec, 0x7009), None);
    assert_eq!(read_snapshot(&rec, 0x6ff8), None);
    let mut c = capture();
    assert!(matches!(c.handle(Record::SampleUnwind(rec)), Pending::Unwind(_)));
    assert_eq!(c.unwind_snapshots, 1);
}

#[test]
fn data_addresses_are_labeled_by_region() {
    let mut r = RegionCache::new();
    assert!(matches!(r.data_region_label(0x1000, 5), RegionStep::Parse));
    let maps = "1000-2000 rw-p 0 00:00 0 [heap]\n";
    assert_eq!(r.parsed(0x1000, 5, Some(maps)), b"[heap]");
    assert!(matches!(r.data_region_label(u64::MAX, 5), RegionStep::Label(l) if l == b"[kernel]"));
    assert!(matches!(r.data_region_label(0x9000, 6), RegionStep::Label(l) if l == b"[unmapped]"));
    assert!(matches!(r.data_region_label(0x9000, 200_000_000), RegionStep::Parse));
}

#[test]
fn mappings_are_read_again_after_a_second() {
    assert!(!reparse_due(1_000_000_000, 1));
    assert!(reparse_due(1_000_000_001, 1));
    assert_eq!(find_first_miss(&[0, 5, 6], &[false, true, false]), Some(2));
    assert_eq!(find_first_miss(&[0, 5], &[false, true]), None);
}

#[test]
fn acknowledgements_come_last() {
    let acks = service_acks(true, true);
    assert!(matches!(acks.last(), Some(AckAction::StopDone)));
    assert!(service_acks(false, false).is_empty());
}

#[test]
fn interned_things_are_written_once() {
    let mut it = Interner::new();
    let mut w = ProtoWriter::new();
    let a = it.intern_path(b"/bin/a", &mut w);
    let n = w.bytes().len();
    assert_eq!(it.intern_path(b"/bin/a", &mut w), a);
    assert_eq!(w.bytes().len(), n);
    assert!(it.intern_path(b"/bin/b", &mut w) != a);
    let m = it.intern_mapping(0x1000, 0x2000, 0, 0x1000, b"/bin/a", &[7], &mut w);
    let f = it.intern_frame(FrameKey { mapping_iid: m, rel_pc: 0x10, name_iid: 0 }, &mut w);
    assert_eq!(it.intern_frame(FrameKey { mapping_iid: m, rel_pc: 0x10, name_iid: 0 }, &mut w), f);
    let cs = it.intern_callstack_ids(&[f, f], &mut w);
    assert_eq!(it.intern_callstack_ids(&[f, f], &mut w), cs);
    it.reset();
    assert!(it.has_room(1));
    let len = w.bytes().len();
    it.intern_path(b"/bin/a", &mut w);
    assert!(w.bytes().len() > len);
}

fn model(family: u16, model_no: u16, steppings: Vec<u8>) -> Model {
    Model {
        family,
        model: model_no,
        steppings,
        core: "core".to_string(),
        events: vec![
            Event { role: Role::Cycles, config: 0x3c },
            Event { role: Role::Slots, config: 0x400 },
            Event { role: Role::L3MissLoad, config: 0x20d1 },
        ],
    }
}

const CPUINFO: &str = "processor\t: 0\nvendor_id\t: GenuineIntel\ncpu family\t: 6\nmodel\t\t: 106\nstepping\t: 6\n";

#[test]
fn counters_are_chosen_for_the_host() {
    assert_eq!(cpuinfo_field(CPUINFO, "model"), Some(106));
    assert!(cpuinfo_field(CPUINFO, "flags").is_none());
    // A line that is no `key : number` is passed over.
    assert_eq!(cpuinfo_field("\nmodel name : x\nmodel : 6\n", "model"), Some(6));
    assert_eq!(cpuinfo_field("model : x\nmodel : 6\nmodel : 7\n", "model"), Some(6));
    let id = read_cpu_id(CPUINFO).unwrap();
    assert!(id == (CpuId { family: 6, model: 106, stepping: 6 }));
    let models = vec![model(6, 1, vec![]), model(6, 106, vec![])];
    assert_eq!(match_model(&models, id), Some(1));
    assert!(topdown_enumerated(5, 8));
    assert!(!topdown_enumerated(4, 8));
    let host = |cpuinfo| Host {
        x86_64: true,
        cpuinfo,
        leaf1_ecx: 0,
        leaf10_eax: 5,
        leaf10_ecx: 8,
    };
    let names: Vec<&str> =
        select_counters(&models, &host(Some(CPUINFO))).iter().map(|c| c.name).collect();
    assert_eq!(names, vec!["cpu-cycles", "slots"]);
    // A host that is not in the table gets the generic counters.
    assert_eq!(select_counters(&models, &host(None)).len(), 6);
    assert_eq!(fallback_counters(false).len(), 4);
    assert!(event_of(Src::Raw(0x3c)) == (EventType::Raw, 0x3c));
}

#[test]
fn the_leader_is_configured_for_the_cpu() {
    let models = vec![model(6, 1, vec![]), model(6, 106, vec![])];
    let cache = FocusPreset::from_name(b"cache").unwrap();
    assert_eq!(leader_config(&models, Some(CPUINFO), cache), Some(0x20d1));
    // A CPU that is not told, not named, not in the table, or has no such event.
    assert_eq!(leader_config(&models, None, cache), None);
    assert_eq!(leader_config(&models, Some("vendor_id : GenuineIntel\n"), cache), None);
    assert_eq!(leader_config(&vec![model(6, 1, vec![])], Some(CPUINFO), cache), None);
    let mut bare = vec![model(6, 106, vec![])];
    bare[0].events.pop();
    assert_eq!(leader_config(&bare, Some(CPUINFO), cache), None);
}

#[test]
fn samplers_give_up_precision_step_by_step() {
    let cycles = resolve_sampler(None, 5, None).unwrap();
    assert_eq!((cycles.period, cycles.precise_ip), (SURVEY_PERIOD, 0));
    assert_eq!(SURVEY_PERIOD, 1_000_003);
    let focus = FocusPreset::from_name(b"cache");
    assert!(focus.is_some() && FocusPreset::from_name(b"nothing").is_none());
    assert!(resolve_sampler(focus, 5, None).is_none());
    let cfg = resolve_sampler(focus, 5, Some(0x20d1)).unwrap();
    assert_eq!((cfg.period, cfg.precise_ip, cfg.config), (5, 2, 0x20d1));
    assert_eq!(sampler_attr(&cfg, 2).precise_ip, 2);
    assert!(matches!(
        sampler_next(&cfg, 2, AttemptResult::OpenRefused),
        SamplerNext::Retry { attr, close_fd: false } if attr.precise_ip == 1
    ));
    assert!(matches!(
        sampler_next(&cfg, 1, AttemptResult::Attached),
        SamplerNext::Done { precise_ip: 1 }
    ));
    assert!(matches!(
        sampler_next(&cfg, 0, AttemptResult::AttachRefused),
        SamplerNext::GiveUp { close_fd: true }
    ));
    let mut s = SamplerSummary::new();
    assert!(!s.any);
    s.note(2);
    s.note(1);
    assert!(s.any);
    assert_eq!(FocusPreset::Cache.name(), "cache");
}

#[test]
fn counters_join_the_group_of_the_first_that_opens() {
    let counters = fallback_counters(true);
    let mut w = GroupWalk::new(&counters);
    assert!(matches!(w.next(&counters), Some((Src::Hw(0), -1))));
    assert!(w.opened(&counters, 3, None).is_none());
    assert!(matches!(w.next(&counters), Some((_, -1))));
    let e = w.opened(&counters, 3, Some(10)).unwrap();
    assert_eq!((e.idx, e.fd), (256 + 3, 10));
    assert!(matches!(w.next(&counters), Some((_, 10))));
    w.opened(&counters, 3, Some(11));
    w.opened(&counters, 3, Some(12));
    // The next group has a leader of its own.
    assert!(matches!(w.next(&counters), Some((_, -1))));
    w.opened(&counters, 3, Some(13));
    w.opened(&counters, 3, None);
    assert!(w.next(&counters).is_none());
    assert_eq!(active_slots(&w.fds), vec![1, 2, 3, 4]);
    assert_eq!(cpus_used(300), 256);
    assert_eq!(cpus_used(4), 4);
    assert_eq!(unwind_flag(true, false), 1);
    assert_eq!(unwind_flag(true, true), 0);
    assert_eq!(unwind_flag(false, false), 0);
    assert!(undo_after(SetupFailure::NoRingBuffer).close_object);
    assert!(!undo_after(SetupFailure::NoObject).close_object);
}

#[test]
fn python_is_looked_for_once() {
    let offs = PyDebugOffsets {
        interpreters_head: 1,
        threads_head: 2,
        current_frame: 3,
        frame_previous: 4,
        frame_executable: 5,
        code_qualname: 6,
        unicode_length: 7,
        unicode_asciiobject_size: 8,
    };
    let mut p = PythonRuntime::new();
    assert!(p.ensure_python_runtime(true, true));
    assert!(!p.ensure_python_runtime(true, true));
    let cfg = p.located(Some((0x5000, offs)), false, 3).unwrap();
    assert_eq!((cfg.runtime, cfg.interpreters_head, cfg.unicode_data), (0x5000, 1, 8));
    assert!(p.located(Some((0x5000, offs)), true, 3).is_none());
    assert!(p.located(Some((0x5000, offs)), false, -1).is_none());
    assert!(p.located(None, false, 3).is_none());
    assert!(!PythonRuntime::default().ensure_python_runtime(false, true));
}

#[test]
fn threads_are_sampled_when_they_ran() {
    let mut b = vec![0u8; 40];
    b[0] = 2; // two seconds of user time
    b[12] = 5; // five microseconds of system time
    assert!(has_times(&b));
    assert_eq!(thread_cpu_time_us(true, &b), Some(2_000_005));
    assert_eq!(thread_cpu_time_us(false, &b), None);
    let idle = ThreadSampler::start(Some(5), 5);
    assert!(matches!(idle.step, SampleStep::Done(false)));
    let mut s = ThreadSampler::start(Some(6), 5);
    assert!(s.active);
    assert!(matches!(s.step, SampleStep::Suspend));
    s.advance(true);
    s.advance(false); // the registers could not be read
    assert!(matches!(s.step, SampleStep::Resume(false)));
    s.advance(true);
    let done = s.finish(1, 2, 3);
    assert!(done.packet.is_none());
    assert_eq!(done.new_cpu_us, 6);
    let mut t = ThreadSampler::start(Some(6), 5);
    for _ in 0..4 {
        t.advance(true);
    }
    let packet = t.finish(77, 2, 3).packet.expect("a sample");
    assert!(matches!(all_fields(&packet)[0], (8, WireValue::Varint(77))));
}

#[test]
fn registers_lose_their_signatures() {
    assert_eq!(strip_pac(0xff00_0012_3456_789a), 0x12_3456_789a);
    let mut b = vec![0u8; 272];
    b[256..264].copy_from_slice(&0xaa00_0000_0000_1234u64.to_le_bytes());
    b[248..256].copy_from_slice(&0x7000u64.to_le_bytes());
    let r = stack_regs(&b);
    assert_eq!((r.pc, r.sp), (0x1234, 0x7000));
}

#[test]
fn cpu_capture_follows_its_threads() {
    let mut c = CpuCapture::new(1_000_000);
    assert!(c.resolve().is_none());
    let inner = cpu_encode(42, 500);
    let mut dsc = vec![0x82, 0x7D, inner.len() as u8];
    dsc.extend_from_slice(&inner);
    c.on_setup(&dsc);
    assert_eq!(c.resolve(), Some((42, 500_000)));
    assert!(c.is_new(9));
    assert_eq!(c.begin_sample(9, 777, Some(5)), (777, 5));
    assert!(!c.is_new(9));
    c.end_sample(9, 777, 8, true);
    assert_eq!(c.begin_sample(9, 1, Some(1)), (777, 8));
    assert_eq!((c.stats.samples, c.stats.active_samples), (2, 1));
    assert!(matches!(c.note_list(true), ListNote::Quiet));
    assert!(matches!(c.note_list(false), ListNote::Failed));
    assert!(matches!(c.note_list(false), ListNote::Quiet));
    assert!(matches!(c.note_list(true), ListNote::Recovered));
    let mut b = vec![0u8; 24];
    b[0] = 5;
    assert_eq!(thread_kernel_tid(true, &b), 5);
    assert_eq!(thread_kernel_tid(false, &b), 0);
}

#[test]
fn the_collector_is_set_up_in_its_order() {
    let mut s = CaptureSetup::new(true);
    let mut steps = Vec::new();
    while s.step != SetupStep::Running {
        steps.push(s.step);
        s.advance(true);
    }
    assert_eq!(
        steps,
        vec![
            SetupStep::Register,
            SetupStep::OpenObject,
            SetupStep::LoadObject,
            SetupStep::FindMaps,
            SetupStep::OpenCounters,
            SetupStep::SetTarget,
            SetupStep::SetUnwindFlag,
            SetupStep::AttachOffCpu,
            SetupStep::OpenSamplers,
            SetupStep::CreateRing,
            SetupStep::StartWorker,
        ]
    );
    assert!(s.object && s.handles);

    // Without off-CPU samples no program looks at threads that wait.
    let mut s = CaptureSetup::new(false);
    for _ in 0..7 {
        s.advance(true);
    }
    assert_eq!(s.step, SetupStep::OpenSamplers);
}

#[test]
fn a_failed_set_up_takes_down_what_it_made() {
    // The object opens and does not load.
    let mut s = CaptureSetup::new(true);
    s.advance(true);
    s.advance(true);
    s.advance(false);
    assert_eq!(s.step, SetupStep::TakeDown(SetupFailure::ObjectUnusable));
    assert_eq!((s.object, s.handles), (true, false));
    s.advance(true);
    assert_eq!(s.step, SetupStep::Failed);
    assert!(!s.object);

    // A counter that does not open is no failure; a ring that is not made is one.
    let mut s = CaptureSetup::new(false);
    for _ in 0..4 {
        s.advance(true);
    }
    s.advance(false);
    assert_eq!(s.step, SetupStep::SetTarget);
    for _ in 0..3 {
        s.advance(true);
    }
    s.advance(false);
    assert_eq!(s.step, SetupStep::TakeDown(SetupFailure::NoRingBuffer));
    assert_eq!((s.object, s.handles), (true, true));
    assert_eq!(OFFCPU_PROGRAMS, 7);
    assert_eq!(offcpu_program(0), "on_sched_switch");
    assert_eq!(offcpu_program(6), "on_vfs_read_ret");
}
