//! The session-setup messages: the `DataSourceDescriptor` that each producer
//! registers, and the `TraceConfig` that sets up a tracing session.

use crate::proto::config_abi::emit;
use crate::proto::sismo_config;
use crate::proto::wire;
use crate::proto::wire::FieldValue;
use crate::proto::writer::ProtoWriter;
use crate::text;
use vstd::prelude::*;
use vstd::string::*;

verus! {

// DataSourceConfig field numbers.
pub const DSC_NAME: u32 = 1;

pub const DSC_TRACK_EVENT_CONFIG: u32 = 113;

pub const DSC_FTRACE_CONFIG: u32 = 100;

pub const DSC_PROTOVM_CONFIG: u32 = 12;

pub const DSC_SISMO_CONFIG: u32 = 2000;

// ---- DataSourceDescriptor --------------------------------------------------

/// `DataSourceDescriptor { name = 1, will_notify_on_stop = 2, will_notify_on_start
/// = 3, protovm_program = 10 (omitted when empty) }`.
pub open spec fn data_source_descriptor(
    name: Seq<u8>,
    notify_on_stop: bool,
    notify_on_start: bool,
    program: Seq<u8>,
) -> Seq<u8> {
    wire::len_field(1, name) + wire::flag_field(2, notify_on_stop) + wire::flag_field(
        3,
        notify_on_start,
    ) + wire::nonempty_field(10, program)
}

pub fn encode_data_source_descriptor(
    name: &[u8],
    will_notify_on_stop: bool,
    will_notify_on_start: bool,
    protovm_program: &[u8],
) -> (r: Vec<u8>)
    ensures
        r@ == data_source_descriptor(
            name@,
            will_notify_on_stop,
            will_notify_on_start,
            protovm_program@,
        ),
{
    let mut w = ProtoWriter::new();
    w.write_string(1, name);
    w.write_flag(2, will_notify_on_stop);
    w.write_flag(3, will_notify_on_start);
    w.write_nonempty(10, protovm_program);
    assert(w@ =~= data_source_descriptor(
        name@,
        will_notify_on_stop,
        will_notify_on_start,
        protovm_program@,
    ));
    w.into_bytes()
}

/// Encode a DataSourceDescriptor into `out`. Returns the bytes written, or 0
/// where `out` is too small.
pub fn sismo_encode_data_source_descriptor(
    name: &[u8],
    will_notify_on_stop: bool,
    will_notify_on_start: bool,
    protovm_program: &[u8],
    out: &mut [u8],
) -> (n: usize)
    ensures
        crate::proto::config_abi::emitted(
            data_source_descriptor(
                name@,
                will_notify_on_stop,
                will_notify_on_start,
                protovm_program@,
            ),
            old(out)@,
            final(out)@,
            n,
        ),
{
    let b = encode_data_source_descriptor(
        name,
        will_notify_on_stop,
        will_notify_on_start,
        protovm_program,
    );
    emit(b.as_slice(), out)
}

// ---- TraceConfig -----------------------------------------------------------

/// Keep recording into a ring.
pub const MODE_RING: u32 = 0;

/// Record until the buffer is full or the duration is over.
pub const MODE_CAPPED: u32 = 1;

/// Write the trace into a file while recording.
pub const MODE_FILE: u32 = 2;

// Kinds of data source.
pub const KIND_TRACK_EVENT: u32 = 0;

pub const KIND_SISMO_VENDOR: u32 = 1;

pub const KIND_LINUX_FTRACE: u32 = 2;

/// One data source of a session. `kind` selects which fields are read: the track
/// event and ftrace sources need none, a vendor source uses all.
pub struct DataSourceEntryC {
    pub kind: u32,
    pub name: Vec<u8>,
    pub sismo_config: Vec<u8>,
    pub protovm_memory_limit_kb: u32,
}

/// `TrackEventConfig { enabled_categories = 2 }` with every category enabled.
pub open spec fn track_event_config() -> Seq<u8> {
    wire::len_field(2, "*".spec_bytes())
}

pub fn encode_track_event_config() -> (r: Vec<u8>)
    ensures
        r@ == track_event_config(),
{
    let mut w = ProtoWriter::new();
    w.write_string(2, "*".as_bytes());
    assert(w@ =~= track_event_config());
    w.into_bytes()
}

/// `FtraceConfig { ftrace_events = 1 (repeated), compact_sched = 12 { enabled = 1 } }`.
pub open spec fn ftrace_config() -> Seq<u8> {
    wire::len_field(1, "sched/sched_switch".spec_bytes()) + wire::len_field(
        1,
        "sched/sched_waking".spec_bytes(),
    ) + wire::len_field(1, "sched/sched_wakeup".spec_bytes()) + wire::len_field(
        1,
        "sched/sched_process_exit".spec_bytes(),
    ) + wire::len_field(1, "power/cpu_frequency".spec_bytes()) + wire::len_field(
        1,
        "power/cpu_idle".spec_bytes(),
    ) + wire::len_field(12, wire::varint_field(1, 1))
}

pub fn encode_ftrace_config() -> (r: Vec<u8>)
    ensures
        r@ == ftrace_config(),
{
    let mut w = ProtoWriter::new();
    w.write_string(1, "sched/sched_switch".as_bytes());
    w.write_string(1, "sched/sched_waking".as_bytes());
    w.write_string(1, "sched/sched_wakeup".as_bytes());
    w.write_string(1, "sched/sched_process_exit".as_bytes());
    w.write_string(1, "power/cpu_frequency".as_bytes());
    w.write_string(1, "power/cpu_idle".as_bytes());
    let mut compact = ProtoWriter::new();
    compact.write_uint32(1, 1);
    assert(compact@ =~= wire::varint_field(1, 1));
    w.write_message(12, compact.bytes());
    assert(w@ =~= ftrace_config());
    w.into_bytes()
}

/// A vendor source's `DataSourceConfig { name = 1, sismo_config = 2000 (omitted
/// when empty), protovm_config = 12 { memory_limit_kb = 1 } (omitted when 0) }`.
pub open spec fn vendor_config(name: Seq<u8>, config: Seq<u8>, limit_kb: u32) -> Seq<u8> {
    wire::len_field(DSC_NAME, name) + wire::nonempty_field(DSC_SISMO_CONFIG, config) + if limit_kb
        > 0 {
        wire::len_field(DSC_PROTOVM_CONFIG, wire::varint_field(1, limit_kb as u64))
    } else {
        Seq::empty()
    }
}

/// The `DataSourceConfig` of one data source. An unknown kind is a vendor's.
pub open spec fn data_source_config(e: DataSourceEntryC) -> Seq<u8> {
    if e.kind == KIND_TRACK_EVENT {
        wire::len_field(DSC_NAME, "track_event".spec_bytes()) + wire::len_field(
            DSC_TRACK_EVENT_CONFIG,
            track_event_config(),
        )
    } else if e.kind == KIND_LINUX_FTRACE {
        wire::len_field(DSC_NAME, "linux.ftrace".spec_bytes()) + wire::len_field(
            DSC_FTRACE_CONFIG,
            ftrace_config(),
        )
    } else {
        vendor_config(e.name@, e.sismo_config@, e.protovm_memory_limit_kb)
    }
}

pub fn encode_data_source_config(entry: &DataSourceEntryC) -> (r: Vec<u8>)
    ensures
        r@ == data_source_config(*entry),
{
    let mut w = ProtoWriter::new();
    if entry.kind == KIND_TRACK_EVENT {
        w.write_string(DSC_NAME, "track_event".as_bytes());
        w.write_message(DSC_TRACK_EVENT_CONFIG, encode_track_event_config().as_slice());
    } else if entry.kind == KIND_LINUX_FTRACE {
        w.write_string(DSC_NAME, "linux.ftrace".as_bytes());
        w.write_message(DSC_FTRACE_CONFIG, encode_ftrace_config().as_slice());
    } else {
        w.write_string(DSC_NAME, entry.name.as_slice());
        w.write_nonempty(DSC_SISMO_CONFIG, entry.sismo_config.as_slice());
        if entry.protovm_memory_limit_kb > 0 {
            let mut pvc = ProtoWriter::new();
            pvc.write_uint32(1, entry.protovm_memory_limit_kb);
            assert(pvc@ =~= wire::varint_field(1, entry.protovm_memory_limit_kb as u64));
            w.write_message(DSC_PROTOVM_CONFIG, pvc.bytes());
        }
    }
    assert(w@ =~= data_source_config(*entry));
    w.into_bytes()
}

/// `BufferConfig { size_kb = 1, fill_policy = 4 (omitted if 0), experimental_mode
/// = 8 }`, the mode always being the second buffer version.
pub open spec fn buffer_config(size_kb: u32, fill_policy: u32) -> Seq<u8> {
    wire::varint_field(1, size_kb as u64) + wire::nonzero_field(4, fill_policy as u64)
        + wire::varint_field(8, 1)
}

pub fn encode_buffer_config(size_kb: u32, fill_policy: u32) -> (r: Vec<u8>)
    ensures
        r@ == buffer_config(size_kb, fill_policy),
{
    let mut w = ProtoWriter::new();
    w.write_uint32(1, size_kb);
    w.write_nonzero(4, fill_policy as u64);
    w.write_uint32(8, 1);
    assert(w@ =~= buffer_config(size_kb, fill_policy));
    w.into_bytes()
}

/// The buffer's fill policy: a capped session discards (2), any other overwrites
/// (1).
pub open spec fn fill_policy(mode: u32) -> u32 {
    if mode == MODE_CAPPED {
        2
    } else {
        1
    }
}

/// `data_sources = 2 { config = 1 }` for the first `n` entries.
pub open spec fn data_sources(entries: Seq<DataSourceEntryC>, n: nat) -> Seq<u8>
    decreases n,
{
    if n == 0 {
        Seq::empty()
    } else {
        data_sources(entries, (n - 1) as nat) + wire::len_field(
            2,
            wire::len_field(1, data_source_config(entries[n - 1])),
        )
    }
}

/// The fields at the end of a TraceConfig, which depend on its mode.
pub open spec fn mode_fields(
    mode: u32,
    duration_ms: u32,
    output_path: Seq<u8>,
    max_file_size: u64,
) -> Seq<u8> {
    if mode == MODE_CAPPED {
        wire::varint_field(3, duration_ms as u64)
    } else if mode == MODE_FILE {
        wire::varint_field(8, 1) + wire::varint_field(10, max_file_size) + wire::varint_field(
            9,
            1000,
        ) + wire::len_field(29, output_path)
    } else {
        Seq::empty()
    }
}

/// `TraceConfig { buffers = 1, data_sources = 2 (repeated), unique_session_name =
/// 22 }` and the fields of its mode.
pub open spec fn trace_config(
    mode: u32,
    buffer_size_kb: u32,
    duration_ms: u32,
    output_path: Seq<u8>,
    max_file_size: u64,
    session_name: Seq<u8>,
    entries: Seq<DataSourceEntryC>,
) -> Seq<u8> {
    wire::len_field(1, buffer_config(buffer_size_kb, fill_policy(mode))) + data_sources(
        entries,
        entries.len(),
    ) + wire::len_field(22, session_name) + mode_fields(
        mode,
        duration_ms,
        output_path,
        max_file_size,
    )
}

pub fn encode_trace_config(
    mode: u32,
    buffer_size_kb: u32,
    duration_ms: u32,
    output_path: &[u8],
    max_file_size_bytes: u64,
    session_name: &[u8],
    entries: &[DataSourceEntryC],
) -> (r: Vec<u8>)
    ensures
        r@ == trace_config(
            mode,
            buffer_size_kb,
            duration_ms,
            output_path@,
            max_file_size_bytes,
            session_name@,
            entries@,
        ),
{
    let mut w = ProtoWriter::new();
    let policy: u32 = if mode == MODE_CAPPED {
        2
    } else {
        1
    };
    w.write_message(1, encode_buffer_config(buffer_size_kb, policy).as_slice());
    let ghost head = w@;
    let mut i: usize = 0;
    while i < entries.len()
        invariant
            i <= entries@.len(),
            w@ == head + data_sources(entries@, i as nat),
        decreases entries@.len() - i,
    {
        let dsc = encode_data_source_config(&entries[i]);
        let mut ds = ProtoWriter::new();
        ds.write_message(1, dsc.as_slice());
        assert(ds@ =~= wire::len_field(1, dsc@));
        w.write_message(2, ds.bytes());
        i += 1;
        assert(w@ =~= head + data_sources(entries@, i as nat));
    }
    w.write_string(22, session_name);
    if mode == MODE_CAPPED {
        w.write_uint32(3, duration_ms);
    } else if mode == MODE_FILE {
        w.write_uint32(8, 1);
        w.write_uint64(10, max_file_size_bytes);
        w.write_uint32(9, 1000);
        w.write_string(29, output_path);
    }
    assert(w@ =~= trace_config(
        mode,
        buffer_size_kb,
        duration_ms,
        output_path@,
        max_file_size_bytes,
        session_name@,
        entries@,
    ));
    w.into_bytes()
}

/// Encode a TraceConfig into `out`. Returns the bytes written, or 0 where `out`
/// is too small.
pub fn sismo_encode_trace_config(
    mode: u32,
    buffer_size_kb: u32,
    duration_ms: u32,
    output_path: &[u8],
    max_file_size_bytes: u64,
    session_name: &[u8],
    entries: &[DataSourceEntryC],
    out: &mut [u8],
) -> (n: usize)
    ensures
        crate::proto::config_abi::emitted(
            trace_config(
                mode,
                buffer_size_kb,
                duration_ms,
                output_path@,
                max_file_size_bytes,
                session_name@,
                entries@,
            ),
            old(out)@,
            final(out)@,
            n,
        ),
{
    let b = encode_trace_config(
        mode,
        buffer_size_kb,
        duration_ms,
        output_path,
        max_file_size_bytes,
        session_name,
        entries,
    );
    emit(b.as_slice(), out)
}

/// A producer finds in its `DataSourceConfig` the config that the session was set
/// up with.
pub proof fn lemma_vendor_config_is_extracted(name: Seq<u8>, config: Seq<u8>, limit_kb: u32)
    requires
        name.len() <= u64::MAX,
        0 < config.len() <= u64::MAX,
    ensures
        sismo_config::first_len(
            wire::fields(vendor_config(name, config, limit_kb)),
            sismo_config::DSC_SISMO_CONFIG_FIELD,
        ) == Some(config),
{
    let rest = if limit_kb > 0 {
        wire::len_field(DSC_PROTOVM_CONFIG, wire::varint_field(1, limit_kb as u64))
    } else {
        Seq::empty()
    };
    let tail = wire::len_field(DSC_SISMO_CONFIG, config) + rest;
    let whole = vendor_config(name, config, limit_kb);
    assert(whole =~= wire::len_field(DSC_NAME, name) + tail);
    wire::lemma_fields_len(DSC_NAME, name, tail);
    wire::lemma_fields_len(DSC_SISMO_CONFIG, config, rest);
    let fs = wire::fields(whole);
    assert(wire::fields(tail)[0] == (DSC_SISMO_CONFIG, FieldValue::Len(config)));
    assert(sismo_config::first_len(wire::fields(tail), DSC_SISMO_CONFIG) == Some(config));
    assert(fs.drop_first() =~= wire::fields(tail));
    assert(fs[0] == (DSC_NAME, FieldValue::Len(name)));
}

/// What a reader of a buffer's configuration finds: its size, what it does when it
/// is full, and the second buffer version.
pub proof fn lemma_buffer_read_back(size_kb: u32, policy: u32)
    ensures
        ({
            let b = buffer_config(size_kb, policy);
            &&& wire::complete(b)
            &&& b.len() <= 60
            &&& wire::under(b, 1) == wire::one(size_kb as u64)
            &&& wire::under(b, 4) == wire::one_unless_zero(policy as u64)
            &&& wire::under(b, 8) == wire::one(1)
        }),
{
    let x = wire::varint_field(1, size_kb as u64);
    let y = wire::nonzero_field(4, policy as u64);
    let z = wire::varint_field(8, 1);
    wire::lemma_under_varint(1, size_kb as u64);
    wire::lemma_under_nonzero(4, policy as u64);
    wire::lemma_under_varint(8, 1);
    wire::lemma_join(x, y);
    wire::lemma_join(x + y, z);
    let b = buffer_config(size_kb, policy);
    assert(wire::under(b, 1) =~= wire::one(size_kb as u64));
    assert(wire::under(b, 4) =~= wire::one_unless_zero(policy as u64));
    assert(wire::under(b, 8) =~= wire::one(1));
}

/// Whether `v` is a message that holds `config` under 1, and nothing else there.
pub open spec fn wraps(v: FieldValue, config: Seq<u8>) -> bool {
    exists|m: Seq<u8>| v == FieldValue::Len(m) && #[trigger] wire::under(m, 1) == wire::one_text(
        config,
    )
}

proof fn lemma_data_sources_read_back(entries: Seq<DataSourceEntryC>, n: nat)
    requires
        n <= entries.len(),
        data_sources(entries, n).len() <= u64::MAX,
    ensures
        wire::complete(data_sources(entries, n)),
        wire::under(data_sources(entries, n), 2).len() == n,
        forall|i: int|
            0 <= i < n ==> wraps(
                #[trigger] wire::under(data_sources(entries, n), 2)[i],
                data_source_config(entries[i]),
            ),
        forall|k: u32|
            k != 2 ==> #[trigger] wire::under(data_sources(entries, n), k) == Seq::<
                FieldValue,
            >::empty(),
    decreases n,
{
    if n == 0 {
        wire::lemma_under_empty();
    } else {
        let m = (n - 1) as nat;
        let front = data_sources(entries, m);
        let config = data_source_config(entries[n - 1]);
        let inner = wire::len_field(1, config);
        let last = wire::len_field(2, inner);
        assert(data_sources(entries, n) == front + last);
        lemma_data_sources_read_back(entries, m);
        wire::lemma_under_len(1, config);
        wire::lemma_under_len(2, inner);
        wire::lemma_join(front, last);
        let found = wire::under(front + last, 2);
        assert(found == wire::under(front, 2) + wire::one_text(inner));
        assert forall|i: int| 0 <= i < n implies wraps(
            #[trigger] found[i],
            data_source_config(entries[i]),
        ) by {
            if i < m {
                assert(found[i] == wire::under(front, 2)[i]);
            } else {
                assert(wire::under(inner, 1) == wire::one_text(config));
            }
        }
        assert forall|k: u32| k != 2 implies #[trigger] wire::under(front + last, k) == Seq::<
            FieldValue,
        >::empty() by {
            assert(wire::under(front, k) + wire::under(last, k) =~= Seq::<FieldValue>::empty());
        }
    }
}

/// What a reader of a session's configuration finds. One buffer, of the size that was
/// asked for, which discards what is new when it is full (2) exactly where the session
/// is capped (1); a ring (0) and a file (2) have the newest overwrite the oldest (1).
/// The sources, each with its own configuration, in their order. The session's name.
/// A duration in a capped session only; where and how much to write in a session into
/// a file only.
#[verifier::spinoff_prover]
#[verifier::rlimit(40)]
pub proof fn lemma_trace_config_read_back(
    mode: u32,
    buffer_size_kb: u32,
    duration_ms: u32,
    output_path: Seq<u8>,
    max_file_size: u64,
    session_name: Seq<u8>,
    entries: Seq<DataSourceEntryC>,
)
    requires
        trace_config(
            mode,
            buffer_size_kb,
            duration_ms,
            output_path,
            max_file_size,
            session_name,
            entries,
        ).len() <= u64::MAX,
    ensures
        ({
            let c = trace_config(
                mode,
                buffer_size_kb,
                duration_ms,
                output_path,
                max_file_size,
                session_name,
                entries,
            );
            &&& exists|b: Seq<u8>|
                {
                    &&& #[trigger] wire::one_text(b) == wire::under(c, 1)
                    &&& wire::under(b, 1) == wire::one(buffer_size_kb as u64)
                    &&& wire::under(b, 4) == wire::one(2) <==> mode == 1
                    &&& wire::under(b, 4) == wire::one(1) <==> mode != 1
                    &&& wire::under(b, 8) == wire::one(1)
                }
            &&& wire::under(c, 2).len() == entries.len()
            &&& forall|i: int|
                0 <= i < entries.len() ==> wraps(
                    #[trigger] wire::under(c, 2)[i],
                    data_source_config(entries[i]),
                )
            &&& wire::under(c, 22) == wire::one_text(session_name)
            &&& mode == 1 ==> wire::under(c, 3) == wire::one(duration_ms as u64)
            &&& mode != 1 ==> wire::under(c, 3).len() == 0
            &&& mode == 2 ==> wire::under(c, 8) == wire::one(1) && wire::under(c, 10) == wire::one(
                max_file_size,
            ) && wire::under(c, 9) == wire::one(1000) && wire::under(c, 29) == wire::one_text(
                output_path,
            )
            &&& mode != 2 ==> wire::under(c, 8).len() == 0 && wire::under(c, 9).len() == 0
                && wire::under(c, 10).len() == 0 && wire::under(c, 29).len() == 0
        }),
{
    let policy = fill_policy(mode);
    let b = buffer_config(buffer_size_kb, policy);
    let head = wire::len_field(1, b);
    let sources = data_sources(entries, entries.len());
    let name = wire::len_field(22, session_name);
    let tail = mode_fields(mode, duration_ms, output_path, max_file_size);
    let c = head + sources + name + tail;
    lemma_buffer_read_back(buffer_size_kb, policy);
    assert(wire::one(1)[0] != wire::one(2)[0]);
    wire::lemma_under_len(1, b);
    lemma_data_sources_read_back(entries, entries.len());
    wire::lemma_under_len(22, session_name);
    lemma_mode_fields_read_back(mode, duration_ms, output_path, max_file_size);
    wire::lemma_join(head, sources);
    wire::lemma_join(head + sources, name);
    wire::lemma_join(head + sources + name, tail);
    assert(wire::under(c, 1) =~= wire::one_text(b));
    assert(wire::under(c, 2) =~= wire::under(sources, 2));
    assert(wire::under(c, 22) =~= wire::one_text(session_name));
    assert(wire::under(c, 3) =~= wire::under(tail, 3));
    assert(wire::under(c, 8) =~= wire::under(tail, 8));
    assert(wire::under(c, 9) =~= wire::under(tail, 9));
    assert(wire::under(c, 10) =~= wire::under(tail, 10));
    assert(wire::under(c, 29) =~= wire::under(tail, 29));
}

#[verifier::spinoff_prover]
#[verifier::rlimit(40)]
proof fn lemma_mode_fields_read_back(
    mode: u32,
    duration_ms: u32,
    output_path: Seq<u8>,
    max_file_size: u64,
)
    requires
        mode_fields(mode, duration_ms, output_path, max_file_size).len() <= u64::MAX,
    ensures
        ({
            let t = mode_fields(mode, duration_ms, output_path, max_file_size);
            let none = Seq::<FieldValue>::empty();
            &&& wire::complete(t)
            &&& wire::under(t, 1) == none
            &&& wire::under(t, 2) == none
            &&& wire::under(t, 22) == none
            &&& wire::under(t, 3) == (if mode == 1 {
                wire::one(duration_ms as u64)
            } else {
                none
            })
            &&& wire::under(t, 8) == (if mode == 2 {
                wire::one(1)
            } else {
                none
            })
            &&& wire::under(t, 10) == (if mode == 2 {
                wire::one(max_file_size)
            } else {
                none
            })
            &&& wire::under(t, 9) == (if mode == 2 {
                wire::one(1000)
            } else {
                none
            })
            &&& wire::under(t, 29) == (if mode == 2 {
                wire::one_text(output_path)
            } else {
                none
            })
        }),
{
    wire::lemma_under_empty();
    wire::lemma_under_varint(3, duration_ms as u64);
    if mode == MODE_FILE {
        let x = wire::varint_field(8, 1);
        let y = wire::varint_field(10, max_file_size);
        let z = wire::varint_field(9, 1000);
        let p = wire::len_field(29, output_path);
        wire::lemma_under_varint(8, 1);
        wire::lemma_under_varint(10, max_file_size);
        wire::lemma_under_varint(9, 1000);
        wire::lemma_under_len(29, output_path);
        wire::lemma_join(x, y);
        wire::lemma_join(x + y, z);
        wire::lemma_join(x + y + z, p);
        let t = x + y + z + p;
        let none = Seq::<FieldValue>::empty();
        assert(wire::under(t, 1) =~= none);
        assert(wire::under(t, 2) =~= none);
        assert(wire::under(t, 22) =~= none);
        assert(wire::under(t, 3) =~= none);
        assert(wire::under(t, 8) =~= wire::one(1));
        assert(wire::under(t, 9) =~= wire::one(1000));
        assert(wire::under(t, 10) =~= wire::one(max_file_size));
        assert(wire::under(t, 29) =~= wire::one_text(output_path));
    }
}

/// What a producer finds in the configuration of its source: its name under 1, and
/// what belongs to its kind. The track events (0) get every category under 113; the
/// kernel's events (2) those of the scheduler, in the compact encoding, under 100; a
/// vendor's source its own configuration, as it was given, under 2000, and what its
/// program may keep under 12.
pub proof fn lemma_data_source_read_back(e: DataSourceEntryC)
    requires
        e.name@.len() <= u64::MAX,
        e.sismo_config@.len() <= u64::MAX,
    ensures
        ({
            let c = data_source_config(e);
            &&& e.kind == 0 ==> wire::under(c, 1) == wire::one_text("track_event".spec_bytes())
                && exists|t: Seq<u8>|
                #[trigger] wire::one_text(t) == wire::under(c, 113) && wire::under(t, 2)
                    == wire::one_text("*".spec_bytes())
            &&& e.kind == 2 ==> wire::under(c, 1) == wire::one_text("linux.ftrace".spec_bytes())
                && exists|t: Seq<u8>, k: Seq<u8>|
                {
                    &&& #[trigger] wire::one_text(t) == wire::under(c, 100)
                    &&& wire::under(t, 1) == seq![
                        FieldValue::Len("sched/sched_switch".spec_bytes()),
                        FieldValue::Len("sched/sched_waking".spec_bytes()),
                        FieldValue::Len("sched/sched_wakeup".spec_bytes()),
                        FieldValue::Len("sched/sched_process_exit".spec_bytes()),
                        FieldValue::Len("power/cpu_frequency".spec_bytes()),
                        FieldValue::Len("power/cpu_idle".spec_bytes()),
                    ]
                    &&& #[trigger] wire::one_text(k) == wire::under(t, 12)
                    &&& wire::under(k, 1) == wire::one(1)
                }
            &&& e.kind != 0 && e.kind != 2 ==> {
                &&& wire::under(c, 1) == wire::one_text(e.name@)
                &&& e.sismo_config@.len() > 0 ==> wire::under(c, 2000) == wire::one_text(
                    e.sismo_config@,
                )
                &&& e.sismo_config@.len() == 0 ==> wire::under(c, 2000).len() == 0
                &&& e.protovm_memory_limit_kb > 0 ==> exists|k: Seq<u8>| #[trigger]
                    wire::one_text(k) == wire::under(c, 12) && wire::under(k, 1) == wire::one(
                        e.protovm_memory_limit_kb as u64,
                    )
                &&& e.protovm_memory_limit_kb == 0 ==> wire::under(c, 12).len() == 0
            }
        }),
{
    wire::lemma_under_empty();
    if e.kind == KIND_TRACK_EVENT {
        lemma_track_event_read_back();
    } else if e.kind == KIND_LINUX_FTRACE {
        lemma_ftrace_read_back();
        let t = ftrace_config();
        let k = wire::varint_field(1, 1);
        let c = data_source_config(e);
        assert(wire::one_text(t) == wire::under(c, 100));
        assert(wire::one_text(k) == wire::under(t, 12));
    } else {
        let x = wire::len_field(1, e.name@);
        let y = wire::nonempty_field(2000, e.sismo_config@);
        let k = wire::varint_field(1, e.protovm_memory_limit_kb as u64);
        let z = if e.protovm_memory_limit_kb > 0 {
            wire::len_field(12, k)
        } else {
            Seq::empty()
        };
        wire::lemma_under_len(1, e.name@);
        wire::lemma_under_nonempty(2000, e.sismo_config@);
        wire::lemma_under_varint(1, e.protovm_memory_limit_kb as u64);
        wire::lemma_under_len(12, k);
        wire::lemma_join(x, y);
        wire::lemma_join(x + y, z);
        let c = data_source_config(e);
        assert(c == x + y + z);
        assert(wire::under(c, 1) =~= wire::one_text(e.name@));
        assert(wire::under(c, 2000) =~= wire::under(y, 2000));
        assert(wire::under(c, 12) =~= wire::under(z, 12));
        if e.protovm_memory_limit_kb > 0 {
            assert(wire::one_text(k) == wire::under(c, 12));
        }
    }
}

proof fn lemma_track_event_read_back()
    ensures
        ({
            let c = wire::len_field(DSC_NAME, "track_event".spec_bytes()) + wire::len_field(
                DSC_TRACK_EVENT_CONFIG,
                track_event_config(),
            );
            wire::under(c, 1) == wire::one_text("track_event".spec_bytes()) && exists|t: Seq<u8>|
                #[trigger] wire::one_text(t) == wire::under(c, 113) && wire::under(t, 2)
                    == wire::one_text("*".spec_bytes())
        }),
{
    text::lemma_utf8_len("*"@);
    text::lemma_utf8_len("track_event"@);
    reveal_strlit("*");
    reveal_strlit("track_event");
    let star = "*".spec_bytes();
    let name = "track_event".spec_bytes();
    let t = track_event_config();
    wire::lemma_under_len(2, star);
    wire::lemma_under_len(1, name);
    wire::lemma_under_len(113, t);
    let x = wire::len_field(1, name);
    let y = wire::len_field(113, t);
    wire::lemma_join(x, y);
    assert(wire::under(x + y, 1) =~= wire::one_text(name));
    assert(wire::under(x + y, 113) =~= wire::one_text(t));
}

#[verifier::spinoff_prover]
#[verifier::rlimit(40)]
proof fn lemma_ftrace_read_back()
    ensures
        ({
            let t = ftrace_config();
            let c = wire::len_field(DSC_NAME, "linux.ftrace".spec_bytes()) + wire::len_field(
                DSC_FTRACE_CONFIG,
                t,
            );
            &&& wire::under(c, 1) == wire::one_text("linux.ftrace".spec_bytes())
            &&& wire::under(c, 100) == wire::one_text(t)
            &&& wire::under(t, 1) == seq![
                FieldValue::Len("sched/sched_switch".spec_bytes()),
                FieldValue::Len("sched/sched_waking".spec_bytes()),
                FieldValue::Len("sched/sched_wakeup".spec_bytes()),
                FieldValue::Len("sched/sched_process_exit".spec_bytes()),
                FieldValue::Len("power/cpu_frequency".spec_bytes()),
                FieldValue::Len("power/cpu_idle".spec_bytes()),
            ]
            &&& wire::under(t, 12) == wire::one_text(wire::varint_field(1, 1))
            &&& wire::under(wire::varint_field(1, 1), 1) == wire::one(1)
        }),
{
    text::lemma_utf8_len("linux.ftrace"@);
    text::lemma_utf8_len("sched/sched_switch"@);
    text::lemma_utf8_len("sched/sched_waking"@);
    text::lemma_utf8_len("sched/sched_wakeup"@);
    text::lemma_utf8_len("sched/sched_process_exit"@);
    text::lemma_utf8_len("power/cpu_frequency"@);
    text::lemma_utf8_len("power/cpu_idle"@);
    reveal_strlit("linux.ftrace");
    reveal_strlit("sched/sched_switch");
    reveal_strlit("sched/sched_waking");
    reveal_strlit("sched/sched_wakeup");
    reveal_strlit("sched/sched_process_exit");
    reveal_strlit("power/cpu_frequency");
    reveal_strlit("power/cpu_idle");
    let a1 = "sched/sched_switch".spec_bytes();
    let a2 = "sched/sched_waking".spec_bytes();
    let a3 = "sched/sched_wakeup".spec_bytes();
    let a4 = "sched/sched_process_exit".spec_bytes();
    let a5 = "power/cpu_frequency".spec_bytes();
    let a6 = "power/cpu_idle".spec_bytes();
    let k = wire::varint_field(1, 1);
    wire::lemma_under_varint(1, 1);
    wire::lemma_under_len(1, a1);
    wire::lemma_under_len(1, a2);
    wire::lemma_under_len(1, a3);
    wire::lemma_under_len(1, a4);
    wire::lemma_under_len(1, a5);
    wire::lemma_under_len(1, a6);
    wire::lemma_under_len(12, k);
    let s2 = wire::len_field(1, a1) + wire::len_field(1, a2);
    let s3 = s2 + wire::len_field(1, a3);
    let s4 = s3 + wire::len_field(1, a4);
    let s5 = s4 + wire::len_field(1, a5);
    let s6 = s5 + wire::len_field(1, a6);
    wire::lemma_join(wire::len_field(1, a1), wire::len_field(1, a2));
    wire::lemma_join(s2, wire::len_field(1, a3));
    wire::lemma_join(s3, wire::len_field(1, a4));
    wire::lemma_join(s4, wire::len_field(1, a5));
    wire::lemma_join(s5, wire::len_field(1, a6));
    wire::lemma_join(s6, wire::len_field(12, k));
    let t = ftrace_config();
    assert(t == s6 + wire::len_field(12, k));
    assert(wire::under(t, 1) =~= seq![
        FieldValue::Len(a1),
        FieldValue::Len(a2),
        FieldValue::Len(a3),
        FieldValue::Len(a4),
        FieldValue::Len(a5),
        FieldValue::Len(a6),
    ]);
    assert(wire::under(t, 12) =~= wire::one_text(k));
    let name = "linux.ftrace".spec_bytes();
    wire::lemma_under_len(1, name);
    wire::lemma_under_len(100, t);
    let x = wire::len_field(1, name);
    let y = wire::len_field(100, t);
    wire::lemma_join(x, y);
    assert(wire::under(x + y, 1) =~= wire::one_text(name));
    assert(wire::under(x + y, 100) =~= wire::one_text(t));
}

/// What the service finds in a source's descriptor: its name first, then what the
/// producer wants to be told of and what it brings along.
#[verifier::spinoff_prover]
#[verifier::rlimit(40)]
pub proof fn lemma_descriptor_fields(
    name: Seq<u8>,
    notify_on_stop: bool,
    notify_on_start: bool,
    program: Seq<u8>,
)
    requires
        name.len() <= u64::MAX,
        program.len() <= u64::MAX,
    ensures
        ({
            let d = data_source_descriptor(name, notify_on_stop, notify_on_start, program);
            &&& wire::complete(d)
            &&& wire::fields(d).len() > 0
            &&& wire::fields(d)[0] == (1u32, FieldValue::Len(name))
            &&& forall|i: int| 1 <= i < wire::fields(d).len() ==> (#[trigger] wire::fields(d)[i]).0
                != 1
            &&& wire::under(d, 1) == wire::one_text(name)
            &&& wire::under(d, 2) == (if notify_on_stop {
                wire::one(1)
            } else {
                Seq::empty()
            })
            &&& wire::under(d, 3) == (if notify_on_start {
                wire::one(1)
            } else {
                Seq::empty()
            })
            &&& program.len() > 0 ==> wire::under(d, 10) == wire::one_text(program)
            &&& program.len() == 0 ==> wire::under(d, 10).len() == 0
        }),
{
    let none = Seq::<u8>::empty();
    let a = wire::len_field(1, name);
    let b = wire::flag_field(2, notify_on_stop);
    let c = wire::flag_field(3, notify_on_start);
    let p = wire::nonempty_field(10, program);
    let d = a + b + c + p;
    wire::lemma_under_len(1, name);
    wire::lemma_under_flag(2, notify_on_stop);
    wire::lemma_under_flag(3, notify_on_start);
    wire::lemma_under_nonempty(10, program);
    wire::lemma_join(a, b);
    wire::lemma_join(a + b, c);
    wire::lemma_join(a + b + c, p);
    assert(wire::under(d, 1) =~= wire::one_text(name));
    assert(wire::under(d, 2) =~= wire::under(b, 2));
    assert(wire::under(d, 3) =~= wire::under(c, 3));
    assert(wire::under(d, 10) =~= wire::under(p, 10));
    let fp = wire::fields(p);
    assert(p + none =~= p);
    if program.len() > 0 {
        wire::lemma_fields_len(10, program, none);
        assert(fp =~= seq![(10u32, FieldValue::Len(program))]);
    }
    let cp = c + p;
    let fcp = wire::fields(cp);
    if notify_on_start {
        wire::lemma_fields_varint(3, 1, p);
        assert(fcp =~= seq![(3u32, FieldValue::Varint(1))] + fp);
    } else {
        assert(cp =~= p);
    }
    let bcp = b + cp;
    let fbcp = wire::fields(bcp);
    if notify_on_stop {
        wire::lemma_fields_varint(2, 1, cp);
        assert(fbcp =~= seq![(2u32, FieldValue::Varint(1))] + fcp);
    } else {
        assert(bcp =~= cp);
    }
    wire::lemma_fields_len(1, name, bcp);
    assert(d =~= a + bcp);
    assert(wire::fields(d) =~= seq![(1u32, FieldValue::Len(name))] + fbcp);
}

} // verus!
