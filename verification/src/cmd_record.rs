//! Recording: the steps in which a session is brought up, what ends it, and what
//! is taken down again, in which order.

use crate::bytes::same_bytes;
use crate::cpu::counters::FocusPreset;
use crate::intern;
use crate::proto::reader::{ProtoReader, WireValue};
use crate::proto::session_config;
use crate::proto::session_config::{encode_trace_config, DataSourceEntryC};
use crate::proto::sismo_config;
use crate::proto::sismo_config::{cpu_encode, heap_encode, sched_encode};
use crate::proto::wire;
use crate::proto::wire::FieldValue;
use vstd::prelude::*;
use vstd::slice::slice_to_vec;
use vstd::string::*;
use vstd::utf8::*;

verus! {

/// How long the producers of another process are waited for, and how often they are
/// looked for.
pub const EXTERNAL_TIMEOUT_MS: u64 = 5_000;

pub const EXTERNAL_POLL_MS: u64 = 100;

/// How long a spawned target is given to come up.
pub const SETTLE_MS: u64 = 200;

/// A configuration that takes more is refused.
pub const CONFIG_CAP_BYTES: usize = 16_384;

pub const MAX_FILE_BYTES: u64 = 1_073_741_824;

/// What the scheduler's source may keep of the process tree.
pub const SCHED_PROTOVM_KB: u32 = 4_096;

/// Where a source is captured.
#[derive(Clone, Copy, PartialEq, Eq, Structural, Debug)]
pub enum SourceMode {
    InProcess,
    /// In another process, which has to be running.
    External,
    Off,
}

#[derive(Clone, Copy, PartialEq, Eq, Structural, Debug)]
pub enum Os {
    Macos,
    Linux,
}

/// What is to be recorded.
#[derive(Clone, Copy, PartialEq, Eq, Structural, Debug)]
pub struct Plan {
    pub os: Os,
    /// Whether the target runs already.
    pub attach: bool,
    pub sched: SourceMode,
    pub cpu: SourceMode,
    pub heap: SourceMode,
    pub no_instrumentation: bool,
    pub flight_recorder: bool,
}

// ---- before the session ------------------------------------------------------

/// The sources that need root.
#[derive(Clone, Copy, PartialEq, Eq, Structural, Debug)]
pub enum Privileged {
    Sched,
    Cpu,
    Heap,
}

pub open spec fn if_in_process(m: SourceMode, p: Privileged) -> Seq<Privileged> {
    if m == SourceMode::InProcess {
        seq![p]
    } else {
        seq![]
    }
}

/// The sources that fail without root.
pub open spec fn unmet(plan: Plan, is_root: bool) -> Seq<Privileged> {
    if is_root {
        Seq::empty()
    } else {
        if_in_process(plan.sched, Privileged::Sched) + if_in_process(plan.cpu, Privileged::Cpu)
            + if_in_process(plan.heap, Privileged::Heap)
    }
}

pub fn unmet_privileges(plan: &Plan, is_root: bool) -> (v: Vec<Privileged>)
    ensures
        v@ == unmet(*plan, is_root),
{
    let mut v: Vec<Privileged> = Vec::new();
    if is_root {
        return v;
    }
    if plan.sched == SourceMode::InProcess {
        v.push(Privileged::Sched);
    }
    if plan.cpu == SourceMode::InProcess {
        v.push(Privileged::Cpu);
    }
    if plan.heap == SourceMode::InProcess {
        v.push(Privileged::Heap);
    }
    assert(v@ =~= unmet(*plan, is_root));
    v
}

/// What the session is focused on: nothing, or a preset; an unknown name is an
/// error.
pub fn resolve_focus(focus: Option<&[u8]>) -> (r: Result<Option<FocusPreset>, ()>)
    ensures
        r == (match focus {
            None => Ok(None),
            Some(name) => if name@ == "cache".spec_bytes() {
                Ok(Some(FocusPreset::Cache))
            } else {
                Err(())
            },
        }),
{
    match focus {
        None => Ok(None),
        Some(name) => match FocusPreset::from_name(name) {
            Some(p) => Ok(Some(p)),
            None => Err(()),
        },
    }
}

// ---- the data sources --------------------------------------------------------

/// A data source of the session, as plain values.
#[verifier::ext_equal]
pub struct EntryView {
    pub kind: u32,
    pub name: Seq<u8>,
    pub config: Seq<u8>,
    pub protovm_kb: u32,
}

pub open spec fn entry_view(e: DataSourceEntryC) -> EntryView {
    EntryView {
        kind: e.kind,
        name: e.name@,
        config: e.sismo_config@,
        protovm_kb: e.protovm_memory_limit_kb,
    }
}

pub open spec fn entry_views(s: Seq<DataSourceEntryC>) -> Seq<EntryView> {
    Seq::new(s.len(), |i: int| entry_view(s[i]))
}

pub open spec fn track_event_view() -> EntryView {
    EntryView {
        kind: session_config::KIND_TRACK_EVENT,
        name: Seq::empty(),
        config: Seq::empty(),
        protovm_kb: 0,
    }
}

pub open spec fn ftrace_view() -> EntryView {
    EntryView {
        kind: session_config::KIND_LINUX_FTRACE,
        name: Seq::empty(),
        config: Seq::empty(),
        protovm_kb: 0,
    }
}

pub open spec fn vendor_view(name: Seq<u8>, config: Seq<u8>, protovm_kb: u32) -> EntryView {
    EntryView { kind: session_config::KIND_SISMO_VENDOR, name, config, protovm_kb }
}

pub fn ds_track_event() -> (e: DataSourceEntryC)
    ensures
        entry_view(e) == track_event_view(),
{
    let e = DataSourceEntryC {
        kind: session_config::KIND_TRACK_EVENT,
        name: Vec::new(),
        sismo_config: Vec::new(),
        protovm_memory_limit_kb: 0,
    };
    assert(entry_view(e) =~= track_event_view());
    e
}

pub fn ds_linux_ftrace() -> (e: DataSourceEntryC)
    ensures
        entry_view(e) == ftrace_view(),
{
    let e = DataSourceEntryC {
        kind: session_config::KIND_LINUX_FTRACE,
        name: Vec::new(),
        sismo_config: Vec::new(),
        protovm_memory_limit_kb: 0,
    };
    assert(entry_view(e) =~= ftrace_view());
    e
}

pub fn ds_sismo_vendor(name: &[u8], cfg: &[u8], protovm_kb: u32) -> (e: DataSourceEntryC)
    ensures
        entry_view(e) == vendor_view(name@, cfg@, protovm_kb),
{
    DataSourceEntryC {
        kind: session_config::KIND_SISMO_VENDOR,
        name: slice_to_vec(name),
        sismo_config: slice_to_vec(cfg),
        protovm_memory_limit_kb: protovm_kb,
    }
}

pub open spec fn when<T>(b: bool, x: T) -> Seq<T> {
    if b {
        seq![x]
    } else {
        seq![]
    }
}

/// Whether a source takes part: it is captured here, or in another process.
pub open spec fn takes_part(started: bool, m: SourceMode) -> bool {
    started || m == SourceMode::External
}

/// An i32 as the u32 with its bits.
pub open spec fn pid_bits(pid: i32) -> u32 {
    if pid >= 0 {
        pid as u32
    } else {
        (pid + 0x1_0000_0000) as u32
    }
}

/// The data sources of a session, of the captures that were started, and the names
/// of those that another process has to provide.
pub open spec fn macos_sources(plan: Plan, held: Held, target_pid: i32) -> (
    Seq<EntryView>,
    Seq<Seq<u8>>,
) {
    let pid = pid_bits(target_pid);
    (
        when(!plan.no_instrumentation, track_event_view()) + when(
            takes_part(held.heap, plan.heap),
            vendor_view("sismo.heap".spec_bytes(), sismo_config::heap_config(pid, 0, 0), 0),
        ) + when(
            takes_part(held.cpu, plan.cpu),
            vendor_view(
                "sismo.macos_cpu_samples".spec_bytes(),
                sismo_config::cpu_config(pid, 0),
                0,
            ),
        ) + when(
            takes_part(held.sched, plan.sched),
            vendor_view(
                "sismo.macos_sched".spec_bytes(),
                sismo_config::sched_config(0, 0, 0),
                SCHED_PROTOVM_KB,
            ),
        ),
        when(plan.heap == SourceMode::External, "sismo.heap".spec_bytes()) + when(
            plan.cpu == SourceMode::External,
            "sismo.macos_cpu_samples".spec_bytes(),
        ) + when(plan.sched == SourceMode::External, "sismo.macos_sched".spec_bytes()),
    )
}

pub open spec fn linux_sources(plan: Plan, held: Held) -> Seq<EntryView> {
    when(!plan.no_instrumentation, track_event_view()) + when(held.probes, ftrace_view()) + when(
        held.bpf,
        vendor_view("sismo.linux_cpu_samples".spec_bytes(), Seq::empty(), 0),
    )
}

fn push_entry(v: &mut Vec<DataSourceEntryC>, e: DataSourceEntryC)
    ensures
        entry_views(final(v)@) == entry_views(old(v)@).push(entry_view(e)),
{
    v.push(e);
    assert(entry_views(v@) =~= entry_views(old(v)@).push(entry_view(e)));
}

fn push_name(v: &mut Vec<Vec<u8>>, s: &[u8])
    ensures
        intern::rows(final(v)@) == intern::rows(old(v)@).push(s@),
{
    v.push(slice_to_vec(s));
    assert(intern::rows(v@) =~= intern::rows(old(v)@).push(s@));
}

/// The data sources on macOS, and the names of those that another process has to
/// provide.
pub fn macos_entries(plan: &Plan, held: &Held, target_pid: i32) -> (r: (
    Vec<DataSourceEntryC>,
    Vec<Vec<u8>>,
))
    ensures
        (entry_views(r.0@), intern::rows(r.1@)) == macos_sources(*plan, *held, target_pid),
{
    let pid: u32 = crate::bytes::i32_as_u32(target_pid);
    let mut v: Vec<DataSourceEntryC> = Vec::new();
    let mut names: Vec<Vec<u8>> = Vec::new();
    assert(entry_views(v@) =~= Seq::empty());
    assert(intern::rows(names@) =~= Seq::empty());
    if !plan.no_instrumentation {
        push_entry(&mut v, ds_track_event());
    }
    if held.heap || plan.heap == SourceMode::External {
        let cfg = heap_encode(pid, 0, 0);
        push_entry(&mut v, ds_sismo_vendor("sismo.heap".as_bytes(), cfg.as_slice(), 0));
        if plan.heap == SourceMode::External {
            push_name(&mut names, "sismo.heap".as_bytes());
        }
    }
    if held.cpu || plan.cpu == SourceMode::External {
        let cfg = cpu_encode(pid, 0);
        push_entry(
            &mut v,
            ds_sismo_vendor("sismo.macos_cpu_samples".as_bytes(), cfg.as_slice(), 0),
        );
        if plan.cpu == SourceMode::External {
            push_name(&mut names, "sismo.macos_cpu_samples".as_bytes());
        }
    }
    if held.sched || plan.sched == SourceMode::External {
        let cfg = sched_encode(0, 0, 0);
        push_entry(
            &mut v,
            ds_sismo_vendor("sismo.macos_sched".as_bytes(), cfg.as_slice(), SCHED_PROTOVM_KB),
        );
        if plan.sched == SourceMode::External {
            push_name(&mut names, "sismo.macos_sched".as_bytes());
        }
    }
    assert(entry_views(v@) =~= macos_sources(*plan, *held, target_pid).0);
    assert(intern::rows(names@) =~= macos_sources(*plan, *held, target_pid).1);
    (v, names)
}

/// The data sources on Linux.
pub fn linux_entries(plan: &Plan, held: &Held) -> (v: Vec<DataSourceEntryC>)
    ensures
        entry_views(v@) == linux_sources(*plan, *held),
{
    let mut v: Vec<DataSourceEntryC> = Vec::new();
    assert(entry_views(v@) =~= Seq::empty());
    if !plan.no_instrumentation {
        push_entry(&mut v, ds_track_event());
    }
    if held.probes {
        push_entry(&mut v, ds_linux_ftrace());
    }
    if held.bpf {
        let none: Vec<u8> = Vec::new();
        assert(none@ =~= Seq::empty());
        push_entry(
            &mut v,
            ds_sismo_vendor("sismo.linux_cpu_samples".as_bytes(), none.as_slice(), 0),
        );
    }
    assert(entry_views(v@) =~= linux_sources(*plan, *held));
    v
}

/// The configuration of the session: a flight recorder keeps a ring and writes no
/// file.
pub open spec fn session_bytes(
    flight_recorder: bool,
    buffer_kb: u32,
    output: Seq<u8>,
    entries: Seq<DataSourceEntryC>,
) -> Seq<u8> {
    session_config::trace_config(
        if flight_recorder {
            session_config::MODE_RING
        } else {
            session_config::MODE_FILE
        },
        buffer_kb,
        0,
        if flight_recorder {
            Seq::empty()
        } else {
            output
        },
        MAX_FILE_BYTES,
        "sismo_record".spec_bytes(),
        entries,
    )
}

/// The configuration of the session; None where it is too long.
pub fn session_trace_config(
    flight_recorder: bool,
    buffer_kb: u32,
    output: &[u8],
    entries: &Vec<DataSourceEntryC>,
) -> (r: Option<Vec<u8>>)
    ensures
        ({
            let b = session_bytes(flight_recorder, buffer_kb, output@, entries@);
            match r {
                Some(v) => v@ == b && b.len() <= CONFIG_CAP_BYTES,
                None => b.len() > CONFIG_CAP_BYTES,
            }
        }),
{
    let none: Vec<u8> = Vec::new();
    assert(none@ =~= Seq::empty());
    let v = if flight_recorder {
        encode_trace_config(
            session_config::MODE_RING,
            buffer_kb,
            0,
            none.as_slice(),
            MAX_FILE_BYTES,
            "sismo_record".as_bytes(),
            entries.as_slice(),
        )
    } else {
        encode_trace_config(
            session_config::MODE_FILE,
            buffer_kb,
            0,
            output,
            MAX_FILE_BYTES,
            "sismo_record".as_bytes(),
            entries.as_slice(),
        )
    };
    if v.len() > CONFIG_CAP_BYTES {
        None
    } else {
        Some(v)
    }
}

/// What a reader of the session's configuration finds. In neither kind of session does
/// the buffer discard (2): the newest always overwrites the oldest (1), so that a flight
/// recorder holds what happened last. A flight recorder names no file and writes none;
/// a plain recording writes to the output as it goes, once a second and up to 1 GiB.
/// Neither ends by itself after a time.
pub proof fn lemma_session_read_back(
    flight_recorder: bool,
    buffer_kb: u32,
    output: Seq<u8>,
    entries: Seq<DataSourceEntryC>,
)
    requires
        session_bytes(flight_recorder, buffer_kb, output, entries).len() <= CONFIG_CAP_BYTES,
    ensures
        ({
            let c = session_bytes(flight_recorder, buffer_kb, output, entries);
            &&& exists|b: Seq<u8>|
                {
                    &&& #[trigger] wire::one_text(b) == wire::under(c, 1)
                    &&& wire::under(b, 1) == wire::one(buffer_kb as u64)
                    &&& wire::under(b, 4) == wire::one(1)
                    &&& wire::under(b, 4) != wire::one(2)
                }
            &&& wire::under(c, 2).len() == entries.len()
            &&& forall|i: int|
                0 <= i < entries.len() ==> session_config::wraps(
                    #[trigger] wire::under(c, 2)[i],
                    session_config::data_source_config(entries[i]),
                )
            &&& wire::under(c, 3).len() == 0
            &&& wire::under(c, 22) == wire::one_text("sismo_record".spec_bytes())
            &&& flight_recorder ==> wire::under(c, 8).len() == 0 && wire::under(c, 29).len() == 0
                && wire::under(c, 9).len() == 0 && wire::under(c, 10).len() == 0
            &&& !flight_recorder ==> wire::under(c, 8) == wire::one(1) && wire::under(c, 29)
                == wire::one_text(output) && wire::under(c, 9) == wire::one(1000) && wire::under(
                c,
                10,
            ) == wire::one(1_073_741_824)
        }),
{
    assert(wire::one(1)[0] != wire::one(2)[0]);
    session_config::lemma_trace_config_read_back(
        if flight_recorder {
            session_config::MODE_RING
        } else {
            session_config::MODE_FILE
        },
        buffer_kb,
        0,
        if flight_recorder {
            Seq::empty()
        } else {
            output
        },
        MAX_FILE_BYTES,
        "sismo_record".spec_bytes(),
        entries,
    );
}

/// The sources of a session on macOS. The first is that of the track events, unless
/// there is to be no instrumentation. Each other one is there exactly where its capture
/// was started here or is left to another process, and once; the names that are waited
/// for are those that are left to another process, and no other. What the heap's and
/// the CPU's source are told of the target is its process id.
pub proof fn lemma_macos_sources_are_those_captured(plan: Plan, held: Held, target_pid: i32)
    ensures
        ({
            let (entries, awaited) = macos_sources(plan, held, target_pid);
            let heap = "sismo.heap".spec_bytes();
            let cpu = "sismo.macos_cpu_samples".spec_bytes();
            let sched = "sismo.macos_sched".spec_bytes();
            &&& (exists|i: int|
                0 <= i < entries.len() && (#[trigger] entries[i]).kind == 1 && entries[i].name
                    == heap) <==> held.heap || plan.heap == SourceMode::External
            &&& (exists|i: int|
                0 <= i < entries.len() && (#[trigger] entries[i]).kind == 1 && entries[i].name
                    == cpu) <==> held.cpu || plan.cpu == SourceMode::External
            &&& (exists|i: int|
                0 <= i < entries.len() && (#[trigger] entries[i]).kind == 1 && entries[i].name
                    == sched) <==> held.sched || plan.sched == SourceMode::External
            &&& (exists|i: int| 0 <= i < entries.len() && (#[trigger] entries[i]).kind == 0)
                <==> !plan.no_instrumentation
            &&& forall|i: int|
                0 <= i < entries.len() ==> (#[trigger] entries[i]).kind == 0 || entries[i].kind == 1
            &&& forall|i: int, j: int|
                0 <= i < j < entries.len() ==> (#[trigger] entries[i]).kind != (
                #[trigger] entries[j]).kind || entries[i].name != entries[j].name
            &&& forall|i: int|
                0 <= i < entries.len() && target_pid >= 0 && ((#[trigger] entries[i]).name == heap
                    || entries[i].name == cpu) ==> sismo_config::config_value(entries[i].config, 1)
                    % 0x1_0000_0000 == target_pid
            &&& awaited.contains(heap) <==> plan.heap == SourceMode::External
            &&& awaited.contains(cpu) <==> plan.cpu == SourceMode::External
            &&& awaited.contains(sched) <==> plan.sched == SourceMode::External
            &&& awaited.no_duplicates()
        }),
{
    let (entries, awaited) = macos_sources(plan, held, target_pid);
    let heap = "sismo.heap".spec_bytes();
    let cpu = "sismo.macos_cpu_samples".spec_bytes();
    let sched = "sismo.macos_sched".spec_bytes();
    lemma_source_names_differ();
    sismo_config::lemma_heap_round_trip(pid_bits(target_pid), 0, 0);
    sismo_config::lemma_cpu_round_trip(pid_bits(target_pid), 0);
    let a = when(!plan.no_instrumentation, track_event_view());
    let b = when(
        takes_part(held.heap, plan.heap),
        vendor_view(heap, sismo_config::heap_config(pid_bits(target_pid), 0, 0), 0),
    );
    let c = when(
        takes_part(held.cpu, plan.cpu),
        vendor_view(cpu, sismo_config::cpu_config(pid_bits(target_pid), 0), 0),
    );
    let d = when(
        takes_part(held.sched, plan.sched),
        vendor_view(sched, sismo_config::sched_config(0, 0, 0), SCHED_PROTOVM_KB),
    );
    assert(entries == a + b + c + d);
    if !plan.no_instrumentation {
        assert(entries[0].kind == 0);
    }
    if takes_part(held.heap, plan.heap) {
        assert(entries[a.len() as int].name == heap);
    }
    if takes_part(held.cpu, plan.cpu) {
        assert(entries[(a.len() + b.len()) as int].name == cpu);
    }
    if takes_part(held.sched, plan.sched) {
        assert(entries[(a.len() + b.len() + c.len()) as int].name == sched);
    }
    let x = when(plan.heap == SourceMode::External, heap);
    let y = when(plan.cpu == SourceMode::External, cpu);
    let z = when(plan.sched == SourceMode::External, sched);
    assert(awaited == x + y + z);
    if plan.heap == SourceMode::External {
        assert(awaited[0] == heap);
    }
    if plan.cpu == SourceMode::External {
        assert(awaited[x.len() as int] == cpu);
    }
    if plan.sched == SourceMode::External {
        assert(awaited[(x.len() + y.len()) as int] == sched);
    }
}

proof fn lemma_source_names_differ()
    ensures
        "sismo.heap".spec_bytes() != "sismo.macos_cpu_samples".spec_bytes(),
        "sismo.heap".spec_bytes() != "sismo.macos_sched".spec_bytes(),
        "sismo.macos_cpu_samples".spec_bytes() != "sismo.macos_sched".spec_bytes(),
        "sismo.heap".spec_bytes().len() > 0,
        "sismo.macos_cpu_samples".spec_bytes().len() > 0,
        "sismo.macos_sched".spec_bytes().len() > 0,
{
    reveal_strlit("sismo.heap");
    reveal_strlit("sismo.macos_cpu_samples");
    reveal_strlit("sismo.macos_sched");
    is_ascii_chars_encode_utf8("sismo.heap"@);
    is_ascii_chars_encode_utf8("sismo.macos_cpu_samples"@);
    is_ascii_chars_encode_utf8("sismo.macos_sched"@);
}

/// The sources of a session on Linux: the track events unless there is to be no
/// instrumentation, the kernel's where its probes run, the CPU samples where the BPF
/// programs do.
pub proof fn lemma_linux_sources_are_those_captured(plan: Plan, held: Held)
    ensures
        ({
            let entries = linux_sources(plan, held);
            &&& (exists|i: int| 0 <= i < entries.len() && (#[trigger] entries[i]).kind == 0)
                <==> !plan.no_instrumentation
            &&& (exists|i: int| 0 <= i < entries.len() && (#[trigger] entries[i]).kind == 2)
                <==> held.probes
            &&& (exists|i: int|
                0 <= i < entries.len() && (#[trigger] entries[i]).kind == 1 && entries[i].name
                    == "sismo.linux_cpu_samples".spec_bytes()) <==> held.bpf
            &&& forall|i: int, j: int|
                0 <= i < j < entries.len() ==> (#[trigger] entries[i]).kind != (
                #[trigger] entries[j]).kind
        }),
{
    let entries = linux_sources(plan, held);
    let a = when(!plan.no_instrumentation, track_event_view());
    let b = when(held.probes, ftrace_view());
    if !plan.no_instrumentation {
        assert(entries[0].kind == 0);
    }
    if held.probes {
        assert(entries[a.len() as int].kind == 2);
    }
    if held.bpf {
        assert(entries[(a.len() + b.len()) as int].kind == 1);
    }
}

// ---- producers of another process --------------------------------------------

/// The payloads of the length-delimited fields `field` of a message.
pub open spec fn payloads(fs: Seq<(u32, FieldValue)>, field: u32) -> Seq<Seq<u8>>
    decreases fs.len(),
{
    if fs.len() == 0 {
        Seq::empty()
    } else {
        match fs[0].1 {
            FieldValue::Len(b) => if fs[0].0 == field {
                seq![b] + payloads(fs.drop_first(), field)
            } else {
                payloads(fs.drop_first(), field)
            },
            _ => payloads(fs.drop_first(), field),
        }
    }
}

/// The payloads of a field of each of the messages.
pub open spec fn payloads_of_all(ms: Seq<Seq<u8>>, field: u32) -> Seq<Seq<u8>>
    decreases ms.len(),
{
    if ms.len() == 0 {
        Seq::empty()
    } else {
        payloads(wire::fields(ms[0]), field) + payloads_of_all(ms.drop_first(), field)
    }
}

/// The names of the data sources in a service's state: field 2 is a source, whose
/// field 1 is its descriptor, whose field 1 is its name.
pub open spec fn registered_names(state: Seq<u8>) -> Seq<Seq<u8>> {
    let sources = payloads(wire::fields(state), 2);
    payloads_of_all(payloads_of_all(sources, 1), 1)
}

proof fn lemma_payloads_join(a: Seq<(u32, FieldValue)>, b: Seq<(u32, FieldValue)>, field: u32)
    ensures
        payloads(a + b, field) == payloads(a, field) + payloads(b, field),
    decreases a.len(),
{
    if a.len() == 0 {
        assert(a + b =~= b);
        assert(payloads(a, field) + payloads(b, field) =~= payloads(b, field));
    } else {
        lemma_payloads_join(a.drop_first(), b, field);
        assert((a + b).drop_first() =~= a.drop_first() + b);
        assert(payloads(a + b, field) =~= payloads(a, field) + payloads(b, field));
    }
}

proof fn lemma_payloads_of_one(b: Seq<u8>, field: u32)
    requires
        b.len() <= u64::MAX,
    ensures
        wire::complete(wire::len_field(field, b)),
        payloads(wire::fields(wire::len_field(field, b)), field) == seq![b],
{
    wire::lemma_under_len(field, b);
    wire::lemma_fields_len(field, b, Seq::empty());
    let f = wire::len_field(field, b);
    assert(f + Seq::empty() =~= f);
    let fs = wire::fields(f);
    assert(fs =~= seq![(field, FieldValue::Len(b))]);
    assert(fs.drop_first() =~= Seq::empty());
    assert(fs[0] == (field, FieldValue::Len(b)));
    assert(payloads(fs.drop_first(), field) =~= Seq::empty());
    assert(payloads(fs, field) == seq![b] + payloads(fs.drop_first(), field));
    assert(seq![b] + Seq::<Seq<u8>>::empty() =~= seq![b]);
}

proof fn lemma_payloads_of_all_join(a: Seq<Seq<u8>>, b: Seq<Seq<u8>>, field: u32)
    ensures
        payloads_of_all(a + b, field) == payloads_of_all(a, field) + payloads_of_all(b, field),
    decreases a.len(),
{
    if a.len() == 0 {
        assert(a + b =~= b);
        assert(payloads_of_all(a, field) + payloads_of_all(b, field) =~= payloads_of_all(b, field));
    } else {
        lemma_payloads_of_all_join(a.drop_first(), b, field);
        assert((a + b).drop_first() =~= a.drop_first() + b);
        assert(payloads_of_all(a + b, field) =~= payloads_of_all(a, field) + payloads_of_all(
            b,
            field,
        ));
    }
}

proof fn lemma_payloads_of_single(m: Seq<u8>, field: u32)
    ensures
        payloads_of_all(seq![m], field) == payloads(wire::fields(m), field),
{
    assert(seq![m].drop_first() =~= Seq::empty());
    let first = payloads(wire::fields(m), field);
    assert(payloads_of_all(Seq::<Seq<u8>>::empty(), field) =~= Seq::empty());
    assert(seq![m][0] == m);
    assert(payloads_of_all(seq![m], field) == first + payloads_of_all(
        seq![m].drop_first(),
        field,
    ));
    assert(first + Seq::<Seq<u8>>::empty() =~= first);
}

/// A source that a producer registers is found in the service's state by the name in
/// its descriptor, behind those that were registered before.
pub proof fn lemma_registered_source_is_found(
    state: Seq<u8>,
    name: Seq<u8>,
    notify_on_stop: bool,
    notify_on_start: bool,
    program: Seq<u8>,
)
    requires
        wire::complete(state),
        session_config::data_source_descriptor(
            name,
            notify_on_stop,
            notify_on_start,
            program,
        ).len() < 0x8000_0000,
    ensures
        ({
            let d = session_config::data_source_descriptor(
                name,
                notify_on_stop,
                notify_on_start,
                program,
            );
            registered_names(state + wire::len_field(2, wire::len_field(1, d)))
                == registered_names(state).push(name)
        }),
{
    let d = session_config::data_source_descriptor(name, notify_on_stop, notify_on_start, program);
    let source = wire::len_field(1, d);
    let entry = wire::len_field(2, source);
    lemma_payloads_of_one(d, 1);
    wire::lemma_under_len(1, d);
    lemma_payloads_of_one(source, 2);
    reveal(wire::complete);
    assert(wire::fields(state + entry) == wire::fields(state) + wire::fields(entry));
    let old_sources = payloads(wire::fields(state), 2);
    lemma_payloads_join(wire::fields(state), wire::fields(entry), 2);
    lemma_payloads_of_all_join(old_sources, seq![source], 1);
    lemma_payloads_of_single(source, 1);
    let old_descriptors = payloads_of_all(old_sources, 1);
    lemma_payloads_of_all_join(old_descriptors, seq![d], 1);
    lemma_payloads_of_single(d, 1);
    session_config::lemma_descriptor_fields(name, notify_on_stop, notify_on_start, program);
    let tail = seq![(1u32, FieldValue::Len(name))];
    let fs = wire::fields(d);
    assert(fs =~= tail + fs.drop_first());
    lemma_payloads_join(tail, fs.drop_first(), 1);
    lemma_no_payloads(fs.drop_first(), 1);
    assert(tail.drop_first() =~= Seq::empty());
    assert(payloads(tail, 1) =~= seq![name]);
    assert(payloads(fs, 1) =~= seq![name]);
    assert(registered_names(state + entry) =~= registered_names(state).push(name));
}

proof fn lemma_no_payloads(fs: Seq<(u32, FieldValue)>, field: u32)
    requires
        forall|i: int| 0 <= i < fs.len() ==> (#[trigger] fs[i]).0 != field,
    ensures
        payloads(fs, field) == Seq::<Seq<u8>>::empty(),
    decreases fs.len(),
{
    if fs.len() > 0 {
        assert(fs[0].0 != field);
        let rest = fs.drop_first();
        assert forall|i: int| 0 <= i < rest.len() implies (#[trigger] rest[i]).0 != field by {
            assert(rest[i] == fs[i + 1]);
        }
        lemma_no_payloads(rest, field);
    }
}

fn collect_payloads(m: &[u8], field: u32, out: &mut Vec<Vec<u8>>)
    ensures
        intern::rows(final(out)@) == intern::rows(old(out)@) + payloads(wire::fields(m@), field),
{
    let ghost head = intern::rows(out@);
    let ghost all = payloads(wire::fields(m@), field);
    let mut reader = ProtoReader::new(m);
    assert(intern::rows(out@) + all =~= head + all);
    loop
        invariant_except_break
            reader.wf(),
            reader.buf@ == m@,
            intern::rows(out@) + payloads(wire::fields(reader.rest()), field) == head + all,
        ensures
            intern::rows(out@) == head + all,
        decreases reader.rest().len(),
    {
        let ghost left = wire::fields(reader.rest());
        let ghost before = intern::rows(out@);
        match reader.next() {
            Some((f, value)) => {
                assert(left.drop_first() =~= wire::fields(reader.rest()));
                if let WireValue::Len(b) = value {
                    if f == field {
                        out.push(slice_to_vec(b));
                        assert(intern::rows(out@) =~= before.push(b@));
                    }
                }
                assert(intern::rows(out@) + payloads(wire::fields(reader.rest()), field) =~= before
                    + payloads(left, field));
            },
            None => {
                assert(intern::rows(out@) + payloads(left, field) =~= intern::rows(out@));
                break;
            },
        }
    }
}

fn collect_of_all(ms: &Vec<Vec<u8>>, field: u32) -> (out: Vec<Vec<u8>>)
    ensures
        intern::rows(out@) == payloads_of_all(intern::rows(ms@), field),
{
    let ghost rows = intern::rows(ms@);
    let ghost all = payloads_of_all(rows, field);
    let mut out: Vec<Vec<u8>> = Vec::new();
    let mut i: usize = 0;
    assert(rows.skip(0) =~= rows);
    assert(intern::rows(out@) + all =~= all);
    while i < ms.len()
        invariant
            i <= ms@.len(),
            rows == intern::rows(ms@),
            intern::rows(out@) + payloads_of_all(rows.skip(i as int), field) == all,
        decreases ms@.len() - i,
    {
        let ghost before = intern::rows(out@);
        let ghost rest = rows.skip(i as int);
        collect_payloads(ms[i].as_slice(), field, &mut out);
        assert(rest[0] == ms@[i as int]@);
        assert(rest.drop_first() =~= rows.skip(i + 1));
        assert(intern::rows(out@) + payloads_of_all(rows.skip(i + 1), field) =~= before
            + payloads_of_all(rest, field));
        i += 1;
    }
    assert(intern::rows(out@) + payloads_of_all(rows.skip(i as int), field) =~= intern::rows(out@));
    out
}

/// The names of the data sources in a service's state.
pub fn registered_data_sources(state: &[u8]) -> (names: Vec<Vec<u8>>)
    ensures
        intern::rows(names@) == registered_names(state@),
{
    let mut sources: Vec<Vec<u8>> = Vec::new();
    assert(intern::rows(sources@) =~= Seq::empty());
    collect_payloads(state, 2, &mut sources);
    assert(intern::rows(sources@) =~= payloads(wire::fields(state@), 2));
    let descriptors = collect_of_all(&sources, 1);
    collect_of_all(&descriptors, 1)
}

/// Whether every name that is expected is registered.
pub open spec fn all_there(names: Seq<Seq<u8>>, expected: Seq<Seq<u8>>) -> bool {
    forall|i: int| 0 <= i < expected.len() ==> names.contains(#[trigger] expected[i])
}

fn has_name(names: &Vec<Vec<u8>>, want: &[u8]) -> (r: bool)
    ensures
        r == intern::rows(names@).contains(want@),
{
    let mut i: usize = 0;
    while i < names.len()
        invariant
            i <= names@.len(),
            forall|j: int| 0 <= j < i ==> intern::rows(names@)[j] != want@,
        decreases names@.len() - i,
    {
        if same_bytes(names[i].as_slice(), want) {
            assert(intern::rows(names@)[i as int] == want@);
            return true;
        }
        i += 1;
    }
    false
}

pub fn all_registered(state: &[u8], expected: &Vec<Vec<u8>>) -> (r: bool)
    ensures
        r == all_there(registered_names(state@), intern::rows(expected@)),
{
    let names = registered_data_sources(state);
    let ghost want = intern::rows(expected@);
    let mut i: usize = 0;
    while i < expected.len()
        invariant
            i <= expected@.len(),
            want == intern::rows(expected@),
            intern::rows(names@) == registered_names(state@),
            forall|j: int| 0 <= j < i ==> intern::rows(names@).contains(#[trigger] want[j]),
        decreases expected@.len() - i,
    {
        assert(want[i as int] == expected@[i as int]@);
        if !has_name(&names, expected[i].as_slice()) {
            assert(!registered_names(state@).contains(want[i as int]));
            return false;
        }
        i += 1;
    }
    true
}

/// What to do about producers that were looked for.
#[derive(Clone, Copy, PartialEq, Eq, Structural, Debug)]
pub enum ExternalStep {
    Ready,
    TimedOut,
    /// Look again after this many milliseconds.
    LookAgain(u64),
}

/// The step after a look that saw them all or not.
pub fn external_step(all_seen: bool, elapsed_ms: u64) -> (s: ExternalStep)
    ensures
        s == (if all_seen {
            ExternalStep::Ready
        } else if elapsed_ms >= EXTERNAL_TIMEOUT_MS {
            ExternalStep::TimedOut
        } else {
            ExternalStep::LookAgain(EXTERNAL_POLL_MS)
        }),
{
    if all_seen {
        ExternalStep::Ready
    } else if elapsed_ms >= EXTERNAL_TIMEOUT_MS {
        ExternalStep::TimedOut
    } else {
        ExternalStep::LookAgain(EXTERNAL_POLL_MS)
    }
}

// ---- bringing the session up -------------------------------------------------

/// What the recorder holds and has to give back.
#[derive(Clone, Copy, PartialEq, Eq, Structural, Debug)]
pub struct Held {
    pub lock: bool,
    pub traced: bool,
    pub probes: bool,
    pub heap: bool,
    pub cpu: bool,
    pub sched: bool,
    pub bpf: bool,
    pub session: bool,
    pub pipe: bool,
}

pub open spec fn nothing_held() -> Held {
    Held {
        lock: false,
        traced: false,
        probes: false,
        heap: false,
        cpu: false,
        sched: false,
        bpf: false,
        session: false,
        pipe: false,
    }
}

/// What is to be done next.
#[derive(Clone, Copy, PartialEq, Eq, Structural, Debug)]
pub enum Step {
    /// Whether the target that is attached to is there.
    CheckTarget,
    /// Whether the focus is known.
    CheckFocus,
    Lock,
    CreateTraced,
    InitProducer,
    StartProbes,
    FindHeapLibrary,
    Spawn,
    Settle,
    StartSched,
    StartCpu,
    /// Whether the target that is attached to was prepared for the heap.
    CheckHeapSocket,
    StartHeap,
    StartBpf,
    /// Whether there are data sources.
    ListSources,
    ClearOutput,
    EncodeConfig,
    CreateSession,
    SetUpSession,
    /// Whether the producers of another process are there.
    WaitExternal,
    StartSession,
    OpenPipe,
    StartWatch,
    /// Record, until the target exits or the recording is stopped.
    Record,
    /// Take down what is held; the session did not come about.
    GiveUp,
    /// Stop: nothing is held.
    Refused,
}

pub open spec fn first_step(plan: Plan) -> Step {
    match plan.os {
        Os::Macos => if plan.attach {
            Step::CheckTarget
        } else {
            Step::Lock
        },
        Os::Linux => Step::CheckFocus,
    }
}

/// The captures that follow the scheduler's.
pub open spec fn from_cpu(plan: Plan) -> Step {
    if plan.cpu == SourceMode::InProcess {
        Step::StartCpu
    } else {
        from_heap(plan)
    }
}

pub open spec fn from_heap(plan: Plan) -> Step {
    if plan.heap == SourceMode::InProcess {
        if plan.attach {
            Step::CheckHeapSocket
        } else {
            Step::StartHeap
        }
    } else {
        Step::ListSources
    }
}

/// The captures, once there is a target.
pub open spec fn captures(plan: Plan) -> Step {
    match plan.os {
        Os::Macos => if plan.sched == SourceMode::InProcess {
            Step::StartSched
        } else {
            from_cpu(plan)
        },
        Os::Linux => if plan.cpu != SourceMode::Off {
            Step::StartBpf
        } else {
            Step::ListSources
        },
    }
}

pub open spec fn has_externals(plan: Plan) -> bool {
    plan.os == Os::Macos && (plan.heap == SourceMode::External || plan.cpu == SourceMode::External
        || plan.sched == SourceMode::External)
}

pub open spec fn or_give_up(ok: bool, s: Step) -> Step {
    if ok {
        s
    } else {
        Step::GiveUp
    }
}

/// What follows a step that went well or not, and what is held then. A capture that
/// does not start is done without.
pub open spec fn step_after(plan: Plan, h: Held, s: Step, ok: bool) -> (Held, Step) {
    match s {
        Step::CheckTarget => (
            h,
            if ok {
                Step::Lock
            } else {
                Step::Refused
            },
        ),
        Step::CheckFocus => (
            h,
            if ok {
                Step::Lock
            } else {
                Step::Refused
            },
        ),
        Step::Lock => if ok {
            (Held { lock: true, ..h }, Step::CreateTraced)
        } else {
            (h, Step::Refused)
        },
        Step::CreateTraced => (Held { traced: ok, ..h }, or_give_up(ok, Step::InitProducer)),
        Step::InitProducer => (
            h,
            match plan.os {
                Os::Macos => if plan.attach {
                    captures(plan)
                } else {
                    Step::FindHeapLibrary
                },
                Os::Linux => if plan.sched != SourceMode::Off {
                    Step::StartProbes
                } else {
                    Step::Spawn
                },
            },
        ),
        Step::StartProbes => (Held { probes: ok, ..h }, Step::Spawn),
        Step::FindHeapLibrary => (h, or_give_up(ok, Step::Spawn)),
        Step::Spawn => (
            h,
            or_give_up(
                ok,
                match plan.os {
                    Os::Macos => Step::Settle,
                    Os::Linux => captures(plan),
                },
            ),
        ),
        Step::Settle => (h, captures(plan)),
        Step::StartSched => (Held { sched: ok, ..h }, from_cpu(plan)),
        Step::StartCpu => (Held { cpu: ok, ..h }, from_heap(plan)),
        Step::CheckHeapSocket => (
            h,
            if ok {
                Step::StartHeap
            } else {
                Step::ListSources
            },
        ),
        Step::StartHeap => (Held { heap: ok, ..h }, Step::ListSources),
        Step::StartBpf => (Held { bpf: ok, ..h }, Step::ListSources),
        Step::ListSources => (
            h,
            or_give_up(
                ok,
                if plan.flight_recorder {
                    Step::EncodeConfig
                } else {
                    Step::ClearOutput
                },
            ),
        ),
        Step::ClearOutput => (h, Step::EncodeConfig),
        Step::EncodeConfig => (h, or_give_up(ok, Step::CreateSession)),
        Step::CreateSession => (Held { session: ok, ..h }, or_give_up(ok, Step::SetUpSession)),
        Step::SetUpSession => (
            h,
            or_give_up(
                ok,
                if has_externals(plan) {
                    Step::WaitExternal
                } else {
                    Step::StartSession
                },
            ),
        ),
        Step::WaitExternal => (h, or_give_up(ok, Step::StartSession)),
        Step::StartSession => (h, Step::OpenPipe),
        Step::OpenPipe => (Held { pipe: ok, ..h }, or_give_up(ok, Step::StartWatch)),
        Step::StartWatch => (h, Step::Record),
        Step::Record => (h, Step::Record),
        Step::GiveUp => (h, Step::GiveUp),
        Step::Refused => (h, Step::Refused),
    }
}

pub struct Recorder {
    pub plan: Plan,
    pub held: Held,
    pub step: Step,
}

/// Which steps come before the lock, before the service, before the session and
/// before the pipe.
pub open spec fn before_lock(s: Step) -> bool {
    s is CheckTarget || s is CheckFocus || s is Lock || s is Refused
}

pub open spec fn before_traced(s: Step) -> bool {
    before_lock(s) || s is CreateTraced
}

pub open spec fn with_session(s: Step) -> bool {
    s is SetUpSession || s is WaitExternal || s is StartSession || s is OpenPipe || s is StartWatch
        || s is Record
}

/// What holds at every step: before the lock nothing is held; behind it the lock
/// is; and so on for the service, the session and the pipe. Nothing is held without
/// the service but the lock, and nothing of the other system.
pub open spec fn consistent(plan: Plan, h: Held, s: Step) -> bool {
    &&& before_lock(s) ==> h == nothing_held()
    &&& !before_lock(s) ==> h.lock
    &&& s is CreateTraced ==> !h.traced
    &&& !before_traced(s) && !(s is GiveUp) ==> h.traced
    &&& !h.traced ==> h == (Held { lock: h.lock, ..nothing_held() })
    &&& with_session(s) ==> h.session
    &&& !with_session(s) && !(s is GiveUp) ==> !h.session
    &&& h.pipe <==> s is StartWatch || s is Record
    &&& plan.os == Os::Macos ==> !h.probes && !h.bpf
    &&& plan.os == Os::Linux ==> !h.heap && !h.cpu && !h.sched
    &&& s is StartProbes || s is StartBpf || s is CheckFocus ==> plan.os == Os::Linux
    &&& s is StartHeap || s is StartCpu || s is StartSched || s is CheckHeapSocket || s is Settle
        || s is WaitExternal ==> plan.os == Os::Macos
}

impl Recorder {
    pub open spec fn wf(self) -> bool {
        consistent(self.plan, self.held, self.step)
    }

    pub fn new(plan: Plan) -> (r: Self)
        ensures
            r.wf(),
            r.plan == plan,
            r.held == nothing_held(),
            r.step == first_step(plan),
    {
        let step = match plan.os {
            Os::Macos => if plan.attach {
                Step::CheckTarget
            } else {
                Step::Lock
            },
            Os::Linux => Step::CheckFocus,
        };
        let held = Held {
            lock: false,
            traced: false,
            probes: false,
            heap: false,
            cpu: false,
            sched: false,
            bpf: false,
            session: false,
            pipe: false,
        };
        Recorder { plan, held, step }
    }

    fn from_heap(&self) -> (s: Step)
        ensures
            s == from_heap(self.plan),
    {
        if self.plan.heap == SourceMode::InProcess {
            if self.plan.attach {
                Step::CheckHeapSocket
            } else {
                Step::StartHeap
            }
        } else {
            Step::ListSources
        }
    }

    fn from_cpu(&self) -> (s: Step)
        ensures
            s == from_cpu(self.plan),
    {
        if self.plan.cpu == SourceMode::InProcess {
            Step::StartCpu
        } else {
            self.from_heap()
        }
    }

    fn captures(&self) -> (s: Step)
        ensures
            s == captures(self.plan),
    {
        match self.plan.os {
            Os::Macos => if self.plan.sched == SourceMode::InProcess {
                Step::StartSched
            } else {
                self.from_cpu()
            },
            Os::Linux => if self.plan.cpu != SourceMode::Off {
                Step::StartBpf
            } else {
                Step::ListSources
            },
        }
    }

    fn needs_externals(&self) -> (r: bool)
        ensures
            r == has_externals(self.plan),
    {
        self.plan.os == Os::Macos && (self.plan.heap == SourceMode::External || self.plan.cpu
            == SourceMode::External || self.plan.sched == SourceMode::External)
    }

    /// Go on after the current step went well or not.
    #[verifier::spinoff_prover]
    #[verifier::rlimit(40)]
    pub fn advance(&mut self, ok: bool)
        requires
            old(self).wf(),
        ensures
            final(self).wf(),
            final(self).plan == old(self).plan,
            (final(self).held, final(self).step) == step_after(
                old(self).plan,
                old(self).held,
                old(self).step,
                ok,
            ),
    {
        let next: Step = match self.step {
            Step::CheckTarget => if ok {
                Step::Lock
            } else {
                Step::Refused
            },
            Step::CheckFocus => if ok {
                Step::Lock
            } else {
                Step::Refused
            },
            Step::Lock => {
                if ok {
                    self.held.lock = true;
                    Step::CreateTraced
                } else {
                    Step::Refused
                }
            },
            Step::CreateTraced => {
                self.held.traced = ok;
                if ok {
                    Step::InitProducer
                } else {
                    Step::GiveUp
                }
            },
            Step::InitProducer => match self.plan.os {
                Os::Macos => if self.plan.attach {
                    self.captures()
                } else {
                    Step::FindHeapLibrary
                },
                Os::Linux => if self.plan.sched != SourceMode::Off {
                    Step::StartProbes
                } else {
                    Step::Spawn
                },
            },
            Step::StartProbes => {
                self.held.probes = ok;
                Step::Spawn
            },
            Step::FindHeapLibrary => if ok {
                Step::Spawn
            } else {
                Step::GiveUp
            },
            Step::Spawn => if ok {
                match self.plan.os {
                    Os::Macos => Step::Settle,
                    Os::Linux => self.captures(),
                }
            } else {
                Step::GiveUp
            },
            Step::Settle => self.captures(),
            Step::StartSched => {
                self.held.sched = ok;
                self.from_cpu()
            },
            Step::StartCpu => {
                self.held.cpu = ok;
                self.from_heap()
            },
            Step::CheckHeapSocket => if ok {
                Step::StartHeap
            } else {
                Step::ListSources
            },
            Step::StartHeap => {
                self.held.heap = ok;
                Step::ListSources
            },
            Step::StartBpf => {
                self.held.bpf = ok;
                Step::ListSources
            },
            Step::ListSources => if ok {
                if self.plan.flight_recorder {
                    Step::EncodeConfig
                } else {
                    Step::ClearOutput
                }
            } else {
                Step::GiveUp
            },
            Step::ClearOutput => Step::EncodeConfig,
            Step::EncodeConfig => if ok {
                Step::CreateSession
            } else {
                Step::GiveUp
            },
            Step::CreateSession => {
                self.held.session = ok;
                if ok {
                    Step::SetUpSession
                } else {
                    Step::GiveUp
                }
            },
            Step::SetUpSession => if ok {
                if self.needs_externals() {
                    Step::WaitExternal
                } else {
                    Step::StartSession
                }
            } else {
                Step::GiveUp
            },
            Step::WaitExternal => if ok {
                Step::StartSession
            } else {
                Step::GiveUp
            },
            Step::StartSession => Step::OpenPipe,
            Step::OpenPipe => {
                self.held.pipe = ok;
                if ok {
                    Step::StartWatch
                } else {
                    Step::GiveUp
                }
            },
            Step::StartWatch => Step::Record,
            Step::Record => Step::Record,
            Step::GiveUp => Step::GiveUp,
            Step::Refused => Step::Refused,
        };
        self.step = next;
    }

    /// What is taken down where the session did not come about.
    pub fn give_up(&self) -> (v: Vec<Release>)
        requires
            self.wf(),
        ensures
            v@ == early_releases(self.held),
    {
        let mut v: Vec<Release> = Vec::new();
        if self.held.session {
            v.push(Release::DestroySession);
        }
        if self.held.heap {
            v.push(Release::ShutdownHeap);
        }
        if self.held.cpu {
            v.push(Release::ShutdownCpu);
        }
        if self.held.sched {
            v.push(Release::ShutdownSched);
        }
        if self.held.bpf {
            v.push(Release::ShutdownBpf);
        }
        if self.held.probes {
            v.push(Release::StopProbes);
        }
        if self.held.traced {
            v.push(Release::StopTraced);
            v.push(Release::DestroyTraced);
        }
        if self.held.lock {
            v.push(Release::ReleaseLock);
        }
        assert(v@ =~= early_releases(self.held));
        v
    }

    /// What is done at the end of a recording. `exited`: the target has ended.
    #[verifier::spinoff_prover]
    #[verifier::rlimit(40)]
    pub fn finish(&self, exited: bool) -> (v: Vec<Release>)
        requires
            self.wf(),
            self.step == Step::Record,
        ensures
            v@ == final_releases(self.plan, self.held, exited),
    {
        let mut v: Vec<Release> = Vec::new();
        v.push(Release::StopSession);
        match self.plan.os {
            Os::Macos => {
                if !self.plan.flight_recorder {
                    v.push(Release::WriteMarker);
                }
                if self.held.heap {
                    v.push(Release::ShutdownHeap);
                }
                if self.held.cpu {
                    v.push(Release::ShutdownCpu);
                }
                if self.held.sched {
                    v.push(Release::ShutdownSched);
                }
                if exited {
                    v.push(Release::JoinWatch);
                }
                v.push(Release::DestroySession);
                v.push(Release::ClosePipe);
                v.push(Release::StopTraced);
                v.push(Release::DestroyTraced);
            },
            Os::Linux => {
                if self.held.bpf {
                    v.push(Release::ShutdownBpf);
                }
                if !self.plan.flight_recorder {
                    v.push(Release::WriteMarker);
                    if self.held.bpf {
                        v.push(Release::Symbolize);
                    }
                }
                v.push(Release::ClosePipe);
                if exited {
                    v.push(Release::JoinWatch);
                }
                v.push(Release::DestroySession);
                if self.held.probes {
                    v.push(Release::StopProbes);
                }
                v.push(Release::StopTraced);
            },
        }
        v.push(Release::ReleaseLock);
        assert(v@ =~= final_releases(self.plan, self.held, exited));
        v
    }
}

// ---- taking the session down -------------------------------------------------

#[derive(Clone, Copy, PartialEq, Eq, Structural, Debug)]
pub enum Release {
    StopSession,
    WriteMarker,
    /// Name the functions of the samples in the trace.
    Symbolize,
    DestroySession,
    ShutdownHeap,
    ShutdownCpu,
    ShutdownSched,
    ShutdownBpf,
    StopProbes,
    /// Wait for the thread that watches the target, which comes back once the target
    /// has ended.
    JoinWatch,
    ClosePipe,
    StopTraced,
    DestroyTraced,
    ReleaseLock,
}

/// What is taken down where the session did not come about: what is held, the
/// session first and the lock last.
pub open spec fn early_releases(h: Held) -> Seq<Release> {
    when(h.session, Release::DestroySession) + when(h.heap, Release::ShutdownHeap) + when(
        h.cpu,
        Release::ShutdownCpu,
    ) + when(h.sched, Release::ShutdownSched) + when(h.bpf, Release::ShutdownBpf) + when(
        h.probes,
        Release::StopProbes,
    ) + when(h.traced, Release::StopTraced) + when(h.traced, Release::DestroyTraced) + when(
        h.lock,
        Release::ReleaseLock,
    )
}

/// What is done at the end of a recording. Only a recording to a file is marked, and
/// the thread that watches the target is waited for only where the target has ended.
pub open spec fn final_releases(plan: Plan, h: Held, exited: bool) -> Seq<Release> {
    match plan.os {
        Os::Macos => seq![Release::StopSession] + when(!plan.flight_recorder, Release::WriteMarker)
            + when(h.heap, Release::ShutdownHeap) + when(h.cpu, Release::ShutdownCpu) + when(
            h.sched,
            Release::ShutdownSched,
        ) + when(exited, Release::JoinWatch) + seq![
            Release::DestroySession,
            Release::ClosePipe,
            Release::StopTraced,
            Release::DestroyTraced,
            Release::ReleaseLock,
        ],
        Os::Linux => seq![Release::StopSession] + when(h.bpf, Release::ShutdownBpf) + when(
            !plan.flight_recorder,
            Release::WriteMarker,
        ) + when(!plan.flight_recorder && h.bpf, Release::Symbolize) + seq![
            Release::ClosePipe,
        ] + when(exited, Release::JoinWatch) + seq![Release::DestroySession] + when(h.probes, Release::StopProbes) + seq![Release::StopTraced, Release::ReleaseLock],
    }
}

// ---- while it records --------------------------------------------------------

/// Why the recording is asked to end.
#[derive(Clone, Copy, PartialEq, Eq, Structural, Debug)]
pub enum Reason {
    Interrupt,
    Duration,
}

/// What a byte of the pipe asks for.
#[derive(Clone, Copy, PartialEq, Eq, Structural, Debug)]
pub enum Wakeup {
    /// Ask the target to end, and stop the recording without waiting until it has.
    Terminate(Reason),
    /// Stop the recording; the target goes on.
    StopRecording(Reason),
    /// The target has ended.
    Exited,
    Ignore,
}

/// An interrupt (I) or the end of the time (T) cuts the recording short. A target that
/// was spawned is asked to end then; one that was attached to goes on. X: the target
/// has ended.
pub open spec fn meaning(attach: bool, b: u8) -> Wakeup {
    if b == 0x49 || b == 0x54 {
        let r = if b == 0x49 {
            Reason::Interrupt
        } else {
            Reason::Duration
        };
        if attach {
            Wakeup::StopRecording(r)
        } else {
            Wakeup::Terminate(r)
        }
    } else if b == 0x58 {
        Wakeup::Exited
    } else {
        Wakeup::Ignore
    }
}

/// Whether the recording is over.
pub open spec fn ends(w: Wakeup) -> bool {
    w is Terminate || w is StopRecording || w is Exited
}

pub fn wakeup(attach: bool, b: u8) -> (w: Wakeup)
    ensures
        w == meaning(attach, b),
{
    if b == 0x49 || b == 0x54 {
        let r = if b == 0x49 {
            Reason::Interrupt
        } else {
            Reason::Duration
        };
        if attach {
            Wakeup::StopRecording(r)
        } else {
            Wakeup::Terminate(r)
        }
    } else if b == 0x58 {
        Wakeup::Exited
    } else {
        Wakeup::Ignore
    }
}

/// What the bytes that were read of the pipe ask for, each in turn, and whether the
/// recording is over.
pub fn on_wakeups(attach: bool, read: &[u8]) -> (r: (Vec<Wakeup>, bool))
    ensures
        r.0@ == Seq::new(read@.len(), |i: int| meaning(attach, read@[i])),
        r.1 == exists|i: int| 0 <= i < read@.len() && ends(meaning(attach, #[trigger] read@[i])),
{
    let mut v: Vec<Wakeup> = Vec::new();
    let mut done: bool = false;
    let mut i: usize = 0;
    while i < read.len()
        invariant
            i <= read@.len(),
            v@ == Seq::new(i as nat, |j: int| meaning(attach, read@[j])),
            done == exists|j: int| 0 <= j < i && ends(meaning(attach, #[trigger] read@[j])),
        decreases read@.len() - i,
    {
        let w = wakeup(attach, read[i]);
        match w {
            Wakeup::Ignore => {},
            _ => {
                done = true;
                assert(ends(meaning(attach, read@[i as int])));
            },
        }
        v.push(w);
        i += 1;
        assert(v@ =~= Seq::new(i as nat, |j: int| meaning(attach, read@[j])));
    }
    (v, done)
}

/// Whether the target has ended, among what was asked for.
pub fn target_exited(wakeups: &Vec<Wakeup>) -> (r: bool)
    ensures
        r == wakeups@.contains(Wakeup::Exited),
{
    let mut i: usize = 0;
    while i < wakeups.len()
        invariant
            i <= wakeups@.len(),
            forall|j: int| 0 <= j < i ==> wakeups@[j] != Wakeup::Exited,
        decreases wakeups@.len() - i,
    {
        if let Wakeup::Exited = wakeups[i] {
            assert(wakeups@[i as int] == Wakeup::Exited);
            return true;
        }
        i += 1;
    }
    false
}

/// An interrupt and the end of the time end every recording, whether the target was
/// spawned or attached to.
pub proof fn lemma_recording_is_cut_short(attach: bool, b: u8)
    requires
        b == 0x49 || b == 0x54,
    ensures
        ends(meaning(attach, b)),
{
}

/// A target that was attached to is never asked to end.
pub proof fn lemma_attached_target_is_left(b: u8)
    ensures
        !(meaning(true, b) is Terminate),
{
}

// ---- laws --------------------------------------------------------------------

/// How often a release occurs.
pub open spec fn times(v: Seq<Release>, r: Release) -> nat
    decreases v.len(),
{
    if v.len() == 0 {
        0
    } else {
        times(v.drop_last(), r) + if v.last() == r {
            1nat
        } else {
            0nat
        }
    }
}

proof fn lemma_times_append(a: Seq<Release>, b: Seq<Release>, r: Release)
    ensures
        times(a + b, r) == times(a, r) + times(b, r),
    decreases b.len(),
{
    if b.len() == 0 {
        assert(a + b =~= a);
    } else {
        assert((a + b).drop_last() =~= a + b.drop_last());
        lemma_times_append(a, b.drop_last(), r);
    }
}

proof fn lemma_times_when(b: bool, x: Release, r: Release)
    ensures
        times(when(b, x), r) == (if b && x == r {
            1nat
        } else {
            0nat
        }),
{
    reveal_with_fuel(times, 2);
}

/// Where the session did not come about, everything that is held is given back, and
/// each thing once; the lock last of all.
pub proof fn lemma_given_back_once(h: Held)
    ensures
        ({
            let v = early_releases(h);
            &&& times(v, Release::ReleaseLock) == (if h.lock {
                1nat
            } else {
                0nat
            })
            &&& times(v, Release::DestroySession) == (if h.session {
                1nat
            } else {
                0nat
            })
            &&& times(v, Release::ShutdownHeap) == (if h.heap {
                1nat
            } else {
                0nat
            })
            &&& times(v, Release::ShutdownCpu) == (if h.cpu {
                1nat
            } else {
                0nat
            })
            &&& times(v, Release::ShutdownSched) == (if h.sched {
                1nat
            } else {
                0nat
            })
            &&& times(v, Release::ShutdownBpf) == (if h.bpf {
                1nat
            } else {
                0nat
            })
            &&& times(v, Release::StopProbes) == (if h.probes {
                1nat
            } else {
                0nat
            })
            &&& times(v, Release::StopTraced) == (if h.traced {
                1nat
            } else {
                0nat
            })
            &&& times(v, Release::DestroyTraced) == (if h.traced {
                1nat
            } else {
                0nat
            })
            &&& h.lock ==> v.last() == Release::ReleaseLock
        }),
{
    lemma_early_times(h, Release::ReleaseLock);
    lemma_early_times(h, Release::DestroySession);
    lemma_early_times(h, Release::ShutdownHeap);
    lemma_early_times(h, Release::ShutdownCpu);
    lemma_early_times(h, Release::ShutdownSched);
    lemma_early_times(h, Release::ShutdownBpf);
    lemma_early_times(h, Release::StopProbes);
    lemma_early_times(h, Release::StopTraced);
    lemma_early_times(h, Release::DestroyTraced);
}

proof fn lemma_early_times(h: Held, r: Release)
    ensures
        times(early_releases(h), r) == times(when(h.session, Release::DestroySession), r) + times(
            when(h.heap, Release::ShutdownHeap),
            r,
        ) + times(when(h.cpu, Release::ShutdownCpu), r) + times(
            when(h.sched, Release::ShutdownSched),
            r,
        ) + times(when(h.bpf, Release::ShutdownBpf), r) + times(
            when(h.probes, Release::StopProbes),
            r,
        ) + times(when(h.traced, Release::StopTraced), r) + times(
            when(h.traced, Release::DestroyTraced),
            r,
        ) + times(when(h.lock, Release::ReleaseLock), r),
        times(when(h.session, Release::DestroySession), r) == (if h.session && r
            == Release::DestroySession {
            1nat
        } else {
            0nat
        }),
        times(when(h.heap, Release::ShutdownHeap), r) == (if h.heap && r == Release::ShutdownHeap {
            1nat
        } else {
            0nat
        }),
        times(when(h.cpu, Release::ShutdownCpu), r) == (if h.cpu && r == Release::ShutdownCpu {
            1nat
        } else {
            0nat
        }),
        times(when(h.sched, Release::ShutdownSched), r) == (if h.sched && r
            == Release::ShutdownSched {
            1nat
        } else {
            0nat
        }),
        times(when(h.bpf, Release::ShutdownBpf), r) == (if h.bpf && r == Release::ShutdownBpf {
            1nat
        } else {
            0nat
        }),
        times(when(h.probes, Release::StopProbes), r) == (if h.probes && r == Release::StopProbes {
            1nat
        } else {
            0nat
        }),
        times(when(h.traced, Release::StopTraced), r) == (if h.traced && r == Release::StopTraced {
            1nat
        } else {
            0nat
        }),
        times(when(h.traced, Release::DestroyTraced), r) == (if h.traced && r
            == Release::DestroyTraced {
            1nat
        } else {
            0nat
        }),
        times(when(h.lock, Release::ReleaseLock), r) == (if h.lock && r == Release::ReleaseLock {
            1nat
        } else {
            0nat
        }),
{
    let a = when(h.session, Release::DestroySession);
    let b = a + when(h.heap, Release::ShutdownHeap);
    let c = b + when(h.cpu, Release::ShutdownCpu);
    let d = c + when(h.sched, Release::ShutdownSched);
    let e = d + when(h.bpf, Release::ShutdownBpf);
    let f = e + when(h.probes, Release::StopProbes);
    let g = f + when(h.traced, Release::StopTraced);
    let i = g + when(h.traced, Release::DestroyTraced);
    lemma_times_append(a, when(h.heap, Release::ShutdownHeap), r);
    lemma_times_append(b, when(h.cpu, Release::ShutdownCpu), r);
    lemma_times_append(c, when(h.sched, Release::ShutdownSched), r);
    lemma_times_append(d, when(h.bpf, Release::ShutdownBpf), r);
    lemma_times_append(e, when(h.probes, Release::StopProbes), r);
    lemma_times_append(f, when(h.traced, Release::StopTraced), r);
    lemma_times_append(g, when(h.traced, Release::DestroyTraced), r);
    lemma_times_append(i, when(h.lock, Release::ReleaseLock), r);
    lemma_times_when(h.session, Release::DestroySession, r);
    lemma_times_when(h.heap, Release::ShutdownHeap, r);
    lemma_times_when(h.cpu, Release::ShutdownCpu, r);
    lemma_times_when(h.sched, Release::ShutdownSched, r);
    lemma_times_when(h.bpf, Release::ShutdownBpf, r);
    lemma_times_when(h.probes, Release::StopProbes, r);
    lemma_times_when(h.traced, Release::StopTraced, r);
    lemma_times_when(h.traced, Release::DestroyTraced, r);
    lemma_times_when(h.lock, Release::ReleaseLock, r);
}

/// At the end of a recording the session is stopped first and the lock released
/// last; in between the session is destroyed before the service is stopped.
pub proof fn lemma_end_of_recording(plan: Plan, h: Held, exited: bool)
    ensures
        final_releases(plan, h, exited).first() == Release::StopSession,
        final_releases(plan, h, exited).last() == Release::ReleaseLock,
        exists|i: int, j: int|
            0 <= i < j < final_releases(plan, h, exited).len() && (#[trigger] final_releases(
                plan,
                h,
                exited,
            )[i]) == Release::DestroySession && (#[trigger] final_releases(plan, h, exited)[j])
                == Release::StopTraced,
{
    let v = final_releases(plan, h, exited);
    match plan.os {
        Os::Macos => {
            let head = seq![Release::StopSession] + when(
                !plan.flight_recorder,
                Release::WriteMarker,
            ) + when(h.heap, Release::ShutdownHeap) + when(h.cpu, Release::ShutdownCpu) + when(
                h.sched,
                Release::ShutdownSched,
            ) + when(exited, Release::JoinWatch);
            let n = head.len() as int;
            assert(head[0] == Release::StopSession);
            assert(v[n] == Release::DestroySession);
            assert(v[n + 2] == Release::StopTraced);
        },
        Os::Linux => {
            let head = seq![Release::StopSession] + when(h.bpf, Release::ShutdownBpf) + when(
                !plan.flight_recorder,
                Release::WriteMarker,
            ) + when(!plan.flight_recorder && h.bpf, Release::Symbolize) + seq![
                Release::ClosePipe,
            ] + when(exited, Release::JoinWatch);
            let most = head + seq![Release::DestroySession] + when(h.probes, Release::StopProbes);
            let n = head.len() as int;
            assert(head[0] == Release::StopSession);
            assert(most[n] == Release::DestroySession);
            assert(v[n] == most[n]);
            assert(v[most.len() as int] == Release::StopTraced);
        },
    }
}

/// At the end of a recording the lock is released once.
pub proof fn lemma_lock_is_released_once(plan: Plan, h: Held, exited: bool)
    ensures
        times(final_releases(plan, h, exited), Release::ReleaseLock) == 1,
{
    lemma_final_times(plan, h, exited, Release::ReleaseLock);
}

/// A recording that is cut short waits for no target: the thread that watches it is
/// waited for only where the target has ended, and then once.
pub proof fn lemma_waits_only_for_ended_target(plan: Plan, h: Held, exited: bool)
    ensures
        times(final_releases(plan, h, exited), Release::JoinWatch) == (if exited {
            1nat
        } else {
            0nat
        }),
{
    lemma_final_times(plan, h, exited, Release::JoinWatch);
}

/// How often the lock is released and the watch waited for.
proof fn lemma_final_times(plan: Plan, h: Held, exited: bool, r: Release)
    requires
        r == Release::ReleaseLock || r == Release::JoinWatch,
    ensures
        times(final_releases(plan, h, exited), r) == (if r == Release::ReleaseLock || exited {
            1nat
        } else {
            0nat
        }),
{
    let a = seq![Release::StopSession];
    lemma_times_one(Release::StopSession);
    match plan.os {
        Os::Macos => {
            let b = a + when(!plan.flight_recorder, Release::WriteMarker);
            let c = b + when(h.heap, Release::ShutdownHeap);
            let d = c + when(h.cpu, Release::ShutdownCpu);
            let e = d + when(h.sched, Release::ShutdownSched);
            let g = e + when(exited, Release::JoinWatch);
            let tail = seq![
                Release::DestroySession,
                Release::ClosePipe,
                Release::StopTraced,
                Release::DestroyTraced,
                Release::ReleaseLock,
            ];
            lemma_times_append(a, when(!plan.flight_recorder, Release::WriteMarker), r);
            lemma_times_append(b, when(h.heap, Release::ShutdownHeap), r);
            lemma_times_append(c, when(h.cpu, Release::ShutdownCpu), r);
            lemma_times_append(d, when(h.sched, Release::ShutdownSched), r);
            lemma_times_append(e, when(exited, Release::JoinWatch), r);
            lemma_times_append(g, tail, r);
            lemma_times_when(exited, Release::JoinWatch, r);
            lemma_times_when(!plan.flight_recorder, Release::WriteMarker, r);
            lemma_times_when(h.heap, Release::ShutdownHeap, r);
            lemma_times_when(h.cpu, Release::ShutdownCpu, r);
            lemma_times_when(h.sched, Release::ShutdownSched, r);
            reveal_with_fuel(times, 6);
            assert(times(tail, r) == (if r == Release::ReleaseLock {
                1nat
            } else {
                0nat
            }));
        },
        Os::Linux => {
            let b = a + when(h.bpf, Release::ShutdownBpf);
            let c = b + when(!plan.flight_recorder, Release::WriteMarker);
            let d = c + when(!plan.flight_recorder && h.bpf, Release::Symbolize);
            let e = d + seq![Release::ClosePipe];
            let g = e + when(exited, Release::JoinWatch);
            let i = g + seq![Release::DestroySession];
            let f = i + when(h.probes, Release::StopProbes);
            let tail = seq![Release::StopTraced, Release::ReleaseLock];
            lemma_times_append(a, when(h.bpf, Release::ShutdownBpf), r);
            lemma_times_append(b, when(!plan.flight_recorder, Release::WriteMarker), r);
            lemma_times_append(c, when(!plan.flight_recorder && h.bpf, Release::Symbolize), r);
            lemma_times_append(d, seq![Release::ClosePipe], r);
            lemma_times_append(e, when(exited, Release::JoinWatch), r);
            lemma_times_append(g, seq![Release::DestroySession], r);
            lemma_times_append(i, when(h.probes, Release::StopProbes), r);
            lemma_times_one(Release::ClosePipe);
            lemma_times_one(Release::DestroySession);
            lemma_times_when(exited, Release::JoinWatch, r);
            lemma_times_append(f, tail, r);
            lemma_times_when(h.bpf, Release::ShutdownBpf, r);
            lemma_times_when(!plan.flight_recorder, Release::WriteMarker, r);
            lemma_times_when(!plan.flight_recorder && h.bpf, Release::Symbolize, r);
            lemma_times_when(h.probes, Release::StopProbes, r);
            reveal_with_fuel(times, 3);
            assert(times(tail, r) == (if r == Release::ReleaseLock {
                1nat
            } else {
                0nat
            }));
        },
    }
}

proof fn lemma_times_one(x: Release)
    ensures
        forall|r: Release| #[trigger]
            times(seq![x], r) == (if x == r {
                1nat
            } else {
                0nat
            }),
{
    reveal_with_fuel(times, 2);
}

/// What is given back at the end of a recording is what is held: every capture that
/// was started is shut down.
pub proof fn lemma_captures_are_shut_down(plan: Plan, h: Held, exited: bool)
    requires
        consistent(plan, h, Step::Record),
    ensures
        h.heap ==> final_releases(plan, h, exited).contains(Release::ShutdownHeap),
        h.cpu ==> final_releases(plan, h, exited).contains(Release::ShutdownCpu),
        h.sched ==> final_releases(plan, h, exited).contains(Release::ShutdownSched),
        h.bpf ==> final_releases(plan, h, exited).contains(Release::ShutdownBpf),
        h.probes ==> final_releases(plan, h, exited).contains(Release::StopProbes),
{
    let a = seq![Release::StopSession];
    match plan.os {
        Os::Macos => {
            let b = a + when(!plan.flight_recorder, Release::WriteMarker);
            let c = b + when(h.heap, Release::ShutdownHeap);
            let d = c + when(h.cpu, Release::ShutdownCpu);
            let e = d + when(h.sched, Release::ShutdownSched);
            let g = e + when(exited, Release::JoinWatch);
            let tail = seq![
                Release::DestroySession,
                Release::ClosePipe,
                Release::StopTraced,
                Release::DestroyTraced,
                Release::ReleaseLock,
            ];
            lemma_in_when(h.heap, Release::ShutdownHeap);
            lemma_in_when(h.cpu, Release::ShutdownCpu);
            lemma_in_when(h.sched, Release::ShutdownSched);
            lemma_in_append(b, when(h.heap, Release::ShutdownHeap));
            lemma_in_append(c, when(h.cpu, Release::ShutdownCpu));
            lemma_in_append(d, when(h.sched, Release::ShutdownSched));
            lemma_in_append(e, when(exited, Release::JoinWatch));
            lemma_in_append(g, tail);
        },
        Os::Linux => {
            let b = a + when(h.bpf, Release::ShutdownBpf);
            let c = b + when(!plan.flight_recorder, Release::WriteMarker);
            let d = c + when(!plan.flight_recorder && h.bpf, Release::Symbolize);
            let e = d + seq![Release::ClosePipe];
            let g = e + when(exited, Release::JoinWatch);
            let i = g + seq![Release::DestroySession];
            let f = i + when(h.probes, Release::StopProbes);
            lemma_in_when(h.bpf, Release::ShutdownBpf);
            lemma_in_when(h.probes, Release::StopProbes);
            lemma_in_append(a, when(h.bpf, Release::ShutdownBpf));
            lemma_in_append(b, when(!plan.flight_recorder, Release::WriteMarker));
            lemma_in_append(c, when(!plan.flight_recorder && h.bpf, Release::Symbolize));
            lemma_in_append(d, seq![Release::ClosePipe]);
            lemma_in_append(e, when(exited, Release::JoinWatch));
            lemma_in_append(g, seq![Release::DestroySession]);
            lemma_in_append(i, when(h.probes, Release::StopProbes));
            lemma_in_append(f, seq![Release::StopTraced, Release::ReleaseLock]);
        },
    }
}

proof fn lemma_in_when(c: bool, r: Release)
    ensures
        c ==> when(c, r).contains(r),
{
    if c {
        assert(when(c, r)[0] == r);
    }
}

proof fn lemma_in_append(a: Seq<Release>, b: Seq<Release>)
    ensures
        forall|r: Release| #[trigger] a.contains(r) ==> (a + b).contains(r),
        forall|r: Release| #[trigger] b.contains(r) ==> (a + b).contains(r),
{
    assert forall|r: Release| #[trigger] a.contains(r) implies (a + b).contains(r) by {
        let i = choose|i: int| 0 <= i < a.len() && a[i] == r;
        assert((a + b)[i] == r);
    }
    assert forall|r: Release| #[trigger] b.contains(r) implies (a + b).contains(r) by {
        let i = choose|i: int| 0 <= i < b.len() && b[i] == r;
        assert((a + b)[a.len() + i] == r);
    }
}

/// A source fails without root exactly where it is captured in this process; each is named
/// once.
#[verifier::spinoff_prover]
#[verifier::rlimit(40)]
pub proof fn lemma_unmet(plan: Plan, is_root: bool)
    ensures
        is_root ==> unmet(plan, is_root).len() == 0,
        !is_root ==> {
            let v = unmet(plan, is_root);
            &&& v.contains(Privileged::Sched) <==> plan.sched == SourceMode::InProcess
            &&& v.contains(Privileged::Cpu) <==> plan.cpu == SourceMode::InProcess
            &&& v.contains(Privileged::Heap) <==> plan.heap == SourceMode::InProcess
            &&& v.no_duplicates()
        },
{
    let v = unmet(plan, is_root);
    let a = if_in_process(plan.sched, Privileged::Sched);
    let b = if_in_process(plan.cpu, Privileged::Cpu);
    let c = if_in_process(plan.heap, Privileged::Heap);
    if !is_root {
        if plan.sched == SourceMode::InProcess {
            assert(v[0] == Privileged::Sched);
        }
        if plan.cpu == SourceMode::InProcess {
            assert(v[a.len() as int] == Privileged::Cpu);
        }
        if plan.heap == SourceMode::InProcess {
            assert(v[(a + b).len() as int] == Privileged::Heap);
        }
        assert forall|i: int, j: int| 0 <= i < j < v.len() implies v[i] != v[j] by {
            assert(v == a + b + c);
        }
    }
}

/// What a byte of the pipe asks for: an I is the interrupt, a T the end of the time, an X
/// the end of the target, and nothing else asks for anything; a target is asked to end
/// only where it was spawned.
pub proof fn lemma_bytes_of_the_pipe(attach: bool, b: u8)
    ensures
        meaning(attach, b) == Wakeup::Exited <==> b == 88,
        meaning(attach, b) == Wakeup::Terminate(Reason::Interrupt) <==> b == 73 && !attach,
        meaning(attach, b) == Wakeup::Terminate(Reason::Duration) <==> b == 84 && !attach,
        meaning(attach, b) == Wakeup::StopRecording(Reason::Interrupt) <==> b == 73 && attach,
        meaning(attach, b) == Wakeup::StopRecording(Reason::Duration) <==> b == 84 && attach,
        ends(meaning(attach, b)) <==> b == 73 || b == 84 || b == 88,
{
}

/// Where a step stands among the others.
pub open spec fn rank(s: Step) -> int {
    match s {
        Step::CheckTarget => 0,
        Step::CheckFocus => 0,
        Step::Lock => 1,
        Step::CreateTraced => 2,
        Step::InitProducer => 3,
        Step::StartProbes => 4,
        Step::FindHeapLibrary => 4,
        Step::Spawn => 5,
        Step::Settle => 6,
        Step::StartSched => 7,
        Step::StartCpu => 8,
        Step::CheckHeapSocket => 9,
        Step::StartHeap => 10,
        Step::StartBpf => 10,
        Step::ListSources => 11,
        Step::ClearOutput => 12,
        Step::EncodeConfig => 13,
        Step::CreateSession => 14,
        Step::SetUpSession => 15,
        Step::WaitExternal => 16,
        Step::StartSession => 17,
        Step::OpenPipe => 18,
        Step::StartWatch => 19,
        Step::Record => 20,
        Step::GiveUp => 21,
        Step::Refused => 21,
    }
}

/// Whether a plan asks for a step.
pub open spec fn asks_for(plan: Plan, s: Step) -> bool {
    let macos = plan.os == Os::Macos;
    match s {
        Step::CheckTarget => macos && plan.attach,
        Step::CheckFocus => !macos,
        Step::StartProbes => !macos && plan.sched != SourceMode::Off,
        Step::FindHeapLibrary | Step::Settle => macos && !plan.attach,
        Step::Spawn => !macos || !plan.attach,
        Step::StartSched => macos && plan.sched == SourceMode::InProcess,
        Step::StartCpu => macos && plan.cpu == SourceMode::InProcess,
        Step::CheckHeapSocket => macos && plan.heap == SourceMode::InProcess && plan.attach,
        Step::StartHeap => macos && plan.heap == SourceMode::InProcess,
        Step::StartBpf => !macos && plan.cpu != SourceMode::Off,
        Step::ClearOutput => !plan.flight_recorder,
        Step::WaitExternal => macos && (plan.sched == SourceMode::External || plan.cpu
            == SourceMode::External || plan.heap == SourceMode::External),
        Step::GiveUp | Step::Refused => false,
        _ => true,
    }
}

/// The recorder begins with the first step that its plan asks for, and behind a step that
/// went well comes the next one that the plan asks for: none is left out, and none comes
/// twice.
#[verifier::spinoff_prover]
#[verifier::rlimit(40)]
pub proof fn lemma_steps_in_order(plan: Plan, h: Held, s: Step, t: Step)
    ensures
        asks_for(plan, first_step(plan)),
        asks_for(plan, t) ==> rank(first_step(plan)) <= rank(t),
        asks_for(plan, s) && s != Step::Record ==> {
            let next = step_after(plan, h, s, true).1;
            &&& asks_for(plan, next)
            &&& rank(s) < rank(next)
            &&& asks_for(plan, t) && rank(s) < rank(t) ==> rank(next) <= rank(t)
        },
        step_after(plan, h, Step::Record, true).1 == Step::Record,
{
}

/// A step that fails: before the lock is held nothing is to be given back; behind it the
/// recorder gives up where the session cannot be without the step, and goes on as if it
/// had gone well where it is a capture that can be done without.
#[verifier::spinoff_prover]
#[verifier::rlimit(40)]
pub proof fn lemma_failed_step(plan: Plan, h: Held, s: Step)
    ensures
        ({
            let next = step_after(plan, h, s, false).1;
            &&& s is CheckTarget || s is CheckFocus || s is Lock ==> next == Step::Refused
                && step_after(plan, h, s, false).0 == h
            &&& s is CreateTraced || s is FindHeapLibrary || s is Spawn || s is ListSources
                || s is EncodeConfig || s is CreateSession || s is SetUpSession || s is WaitExternal
                || s is OpenPipe ==> next == Step::GiveUp
            &&& s is StartProbes || s is StartSched || s is StartCpu || s is StartHeap
                || s is StartBpf ==> next == step_after(plan, h, s, true).1
            &&& s is CheckHeapSocket ==> next == Step::ListSources
        }),
{
}

/// What a step that went well adds to what is held; one that failed adds nothing.
#[verifier::spinoff_prover]
#[verifier::rlimit(40)]
pub proof fn lemma_step_adds(plan: Plan, h: Held, s: Step)
    requires
        consistent(plan, h, s),
    ensures
        ({
            let g = step_after(plan, h, s, true).0;
            &&& g.lock == (h.lock || s is Lock)
            &&& g.traced == (h.traced || s is CreateTraced)
            &&& g.probes == (h.probes || s is StartProbes)
            &&& g.sched == (h.sched || s is StartSched)
            &&& g.cpu == (h.cpu || s is StartCpu)
            &&& g.heap == (h.heap || s is StartHeap)
            &&& g.bpf == (h.bpf || s is StartBpf)
            &&& g.session == (h.session || s is CreateSession)
            &&& g.pipe == (h.pipe || s is OpenPipe)
        }),
{
}

/// Where a release stands when the session did not come about.
pub open spec fn early_rank(r: Release) -> int {
    match r {
        Release::DestroySession => 0,
        Release::ShutdownHeap => 1,
        Release::ShutdownCpu => 2,
        Release::ShutdownSched => 3,
        Release::ShutdownBpf => 4,
        Release::StopProbes => 5,
        Release::StopTraced => 6,
        Release::DestroyTraced => 7,
        Release::ReleaseLock => 8,
        _ => 9,
    }
}

/// Where a release stands at the end of a recording.
pub open spec fn final_rank(os: Os, r: Release) -> int {
    match os {
        Os::Macos => match r {
            Release::StopSession => 0,
            Release::WriteMarker => 1,
            Release::ShutdownHeap => 2,
            Release::ShutdownCpu => 3,
            Release::ShutdownSched => 4,
            Release::JoinWatch => 5,
            Release::DestroySession => 6,
            Release::ClosePipe => 7,
            Release::StopTraced => 8,
            Release::DestroyTraced => 9,
            Release::ReleaseLock => 10,
            _ => 11,
        },
        Os::Linux => match r {
            Release::StopSession => 0,
            Release::ShutdownBpf => 1,
            Release::WriteMarker => 2,
            Release::Symbolize => 3,
            Release::ClosePipe => 4,
            Release::JoinWatch => 5,
            Release::DestroySession => 6,
            Release::StopProbes => 7,
            Release::StopTraced => 8,
            Release::ReleaseLock => 9,
            _ => 10,
        },
    }
}

/// Whether releases stand in ascending order, all below `k`.
pub open spec fn in_order(v: Seq<Release>, rank: spec_fn(Release) -> int, k: int) -> bool {
    &&& forall|i: int| 0 <= i < v.len() ==> rank(#[trigger] v[i]) < k
    &&& forall|i: int, j: int|
        0 <= i < j < v.len() ==> rank(#[trigger] v[i]) < rank(#[trigger] v[j])
}

proof fn lemma_in_order_when(
    v: Seq<Release>,
    b: bool,
    r: Release,
    rank: spec_fn(Release) -> int,
    k: int,
)
    requires
        in_order(v, rank, k),
        rank(r) == k,
    ensures
        in_order(v + when(b, r), rank, k + 1),
{
    let w = v + when(b, r);
    assert forall|i: int| 0 <= i < w.len() implies rank(#[trigger] w[i]) < k + 1 by {
        if i < v.len() {
            assert(w[i] == v[i]);
        }
    }
    assert forall|i: int, j: int| 0 <= i < j < w.len() implies rank(#[trigger] w[i]) < rank(
        #[trigger] w[j],
    ) by {
        assert(w[i] == v[i]);
        if j < v.len() {
            assert(w[j] == v[j]);
        }
    }
}

/// What is held is given back in the reverse of the order in which it came to be needed:
/// the session first, then the captures, then the service, and the lock last.
#[verifier::spinoff_prover]
#[verifier::rlimit(40)]
pub proof fn lemma_given_back_in_order(h: Held, i: int, j: int)
    requires
        0 <= i < j < early_releases(h).len(),
    ensures
        early_rank(early_releases(h)[i]) < early_rank(early_releases(h)[j]) <= 8,
{
    let rank = |r: Release| early_rank(r);
    let a = when(h.session, Release::DestroySession);
    let none = Seq::<Release>::empty();
    lemma_in_order_when(none, h.session, Release::DestroySession, rank, 0);
    assert(none + a =~= a);
    let b = a + when(h.heap, Release::ShutdownHeap);
    lemma_in_order_when(a, h.heap, Release::ShutdownHeap, rank, 1);
    let c = b + when(h.cpu, Release::ShutdownCpu);
    lemma_in_order_when(b, h.cpu, Release::ShutdownCpu, rank, 2);
    let d = c + when(h.sched, Release::ShutdownSched);
    lemma_in_order_when(c, h.sched, Release::ShutdownSched, rank, 3);
    let e = d + when(h.bpf, Release::ShutdownBpf);
    lemma_in_order_when(d, h.bpf, Release::ShutdownBpf, rank, 4);
    let f = e + when(h.probes, Release::StopProbes);
    lemma_in_order_when(e, h.probes, Release::StopProbes, rank, 5);
    let g = f + when(h.traced, Release::StopTraced);
    lemma_in_order_when(f, h.traced, Release::StopTraced, rank, 6);
    let k = g + when(h.traced, Release::DestroyTraced);
    lemma_in_order_when(g, h.traced, Release::DestroyTraced, rank, 7);
    lemma_in_order_when(k, h.lock, Release::ReleaseLock, rank, 8);
    let v = early_releases(h);
    assert(v == k + when(h.lock, Release::ReleaseLock));
    assert(rank(v[i]) < rank(v[j]));
    assert(rank(v[j]) < 9);
}

/// A recording ends in one order: it is stopped, marked, and its captures are shut down
/// before its session is destroyed and the service stopped; on Linux the sampler is shut
/// down before the trace is marked and its functions are named; the lock is last.
#[verifier::spinoff_prover]
#[verifier::rlimit(40)]
pub proof fn lemma_recording_ends_in_order(plan: Plan, h: Held, exited: bool, i: int, j: int)
    requires
        0 <= i < j < final_releases(plan, h, exited).len(),
    ensures
        final_rank(plan.os, final_releases(plan, h, exited)[i]) < final_rank(
            plan.os,
            final_releases(plan, h, exited)[j],
        ) <= 10,
        plan.os == Os::Linux ==> final_rank(plan.os, final_releases(plan, h, exited)[j]) <= 9,
{
    let os = plan.os;
    let rank = |r: Release| final_rank(os, r);
    let v = final_releases(plan, h, exited);
    match os {
        Os::Macos => {
            lemma_macos_in_order(plan, h, exited, rank);
        },
        Os::Linux => {
            lemma_linux_in_order(plan, h, exited, rank);
        },
    }
    assert(rank(v[i]) < rank(v[j]));
}

/// The same releases, one added after the other.
proof fn lemma_one_by_one(
    v: Seq<Release>,
    a: Release,
    b: Release,
    c: Release,
    d: Release,
    e: Release,
)
    ensures
        v + seq![a, b, c, d, e] == v + when(true, a) + when(true, b) + when(true, c) + when(true, d)
            + when(true, e),
        v + seq![a, b] == v + when(true, a) + when(true, b),
        v + seq![a] == v + when(true, a),
{
    assert(v + seq![a, b, c, d, e] =~= v + when(true, a) + when(true, b) + when(true, c) + when(
        true,
        d,
    ) + when(true, e));
    assert(v + seq![a, b] =~= v + when(true, a) + when(true, b));
}

#[verifier::spinoff_prover]
#[verifier::rlimit(60)]
proof fn lemma_macos_in_order(plan: Plan, h: Held, exited: bool, rank: spec_fn(Release) -> int)
    requires
        plan.os == Os::Macos,
        forall|r: Release| #[trigger] rank(r) == final_rank(Os::Macos, r),
    ensures
        in_order(final_releases(plan, h, exited), rank, 11),
{
    let none = Seq::<Release>::empty();
    let a = seq![Release::StopSession];
    let file = !plan.flight_recorder;
    lemma_in_order_when(none, true, Release::StopSession, rank, 0);
    assert(none + when(true, Release::StopSession) =~= a);
    let b = a + when(file, Release::WriteMarker);
    lemma_in_order_when(a, file, Release::WriteMarker, rank, 1);
    let c = b + when(h.heap, Release::ShutdownHeap);
    lemma_in_order_when(b, h.heap, Release::ShutdownHeap, rank, 2);
    let d = c + when(h.cpu, Release::ShutdownCpu);
    lemma_in_order_when(c, h.cpu, Release::ShutdownCpu, rank, 3);
    let e = d + when(h.sched, Release::ShutdownSched);
    lemma_in_order_when(d, h.sched, Release::ShutdownSched, rank, 4);
    let f = e + when(exited, Release::JoinWatch);
    lemma_in_order_when(e, exited, Release::JoinWatch, rank, 5);
    let g = f + when(true, Release::DestroySession);
    lemma_in_order_when(f, true, Release::DestroySession, rank, 6);
    let k = g + when(true, Release::ClosePipe);
    lemma_in_order_when(g, true, Release::ClosePipe, rank, 7);
    let l = k + when(true, Release::StopTraced);
    lemma_in_order_when(k, true, Release::StopTraced, rank, 8);
    let m = l + when(true, Release::DestroyTraced);
    lemma_in_order_when(l, true, Release::DestroyTraced, rank, 9);
    lemma_in_order_when(m, true, Release::ReleaseLock, rank, 10);
    lemma_one_by_one(
        f,
        Release::DestroySession,
        Release::ClosePipe,
        Release::StopTraced,
        Release::DestroyTraced,
        Release::ReleaseLock,
    );
}

#[verifier::spinoff_prover]
#[verifier::rlimit(60)]
proof fn lemma_linux_in_order(plan: Plan, h: Held, exited: bool, rank: spec_fn(Release) -> int)
    requires
        plan.os == Os::Linux,
        forall|r: Release| #[trigger] rank(r) == final_rank(Os::Linux, r),
    ensures
        in_order(final_releases(plan, h, exited), rank, 10),
{
    let none = Seq::<Release>::empty();
    let a = seq![Release::StopSession];
    let file = !plan.flight_recorder;
    lemma_in_order_when(none, true, Release::StopSession, rank, 0);
    assert(none + when(true, Release::StopSession) =~= a);
    let b = a + when(h.bpf, Release::ShutdownBpf);
    lemma_in_order_when(a, h.bpf, Release::ShutdownBpf, rank, 1);
    let c = b + when(file, Release::WriteMarker);
    lemma_in_order_when(b, file, Release::WriteMarker, rank, 2);
    let d = c + when(file && h.bpf, Release::Symbolize);
    lemma_in_order_when(c, file && h.bpf, Release::Symbolize, rank, 3);
    let e = d + when(true, Release::ClosePipe);
    lemma_in_order_when(d, true, Release::ClosePipe, rank, 4);
    let f = e + when(exited, Release::JoinWatch);
    lemma_in_order_when(e, exited, Release::JoinWatch, rank, 5);
    let g = f + when(true, Release::DestroySession);
    lemma_in_order_when(f, true, Release::DestroySession, rank, 6);
    let k = g + when(h.probes, Release::StopProbes);
    lemma_in_order_when(g, h.probes, Release::StopProbes, rank, 7);
    let l = k + when(true, Release::StopTraced);
    lemma_in_order_when(k, true, Release::StopTraced, rank, 8);
    lemma_in_order_when(l, true, Release::ReleaseLock, rank, 9);
    let x = Release::ReleaseLock;
    lemma_one_by_one(d, Release::ClosePipe, x, x, x, x);
    lemma_one_by_one(f, Release::DestroySession, x, x, x, x);
    lemma_one_by_one(k, Release::StopTraced, Release::ReleaseLock, x, x, x);
}

} // verus!
