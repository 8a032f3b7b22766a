//! The trace packets that carry samples and scheduling events.

use crate::proto::wire;
use crate::proto::wire::FieldValue;
use crate::proto::writer;
use crate::proto::writer::ProtoWriter;
use vstd::prelude::*;
use vstd::slice::slice_subrange;

verus! {

/// The longest thread name that a task-state event carries.
pub const MAX_COMM_LEN: usize = 64;

/// The contents of a list of slices.
pub open spec fn contents(s: Seq<&[u8]>) -> Seq<Seq<u8>> {
    Seq::new(s.len(), |i: int| s[i]@)
}

/// `FollowerEvent { name = 4 }`, repeated as field 4, for the first `n` names.
pub open spec fn follower_events(names: Seq<Seq<u8>>, n: nat) -> Seq<u8>
    decreases n,
{
    if n == 0 {
        Seq::empty()
    } else {
        follower_events(names, (n - 1) as nat) + wire::sub_message(
            4,
            wire::len_field(4, names[n - 1]),
        )
    }
}

/// `Timebase { frequency = 2 (omitted if 0), name = 10 }`.
pub open spec fn timebase_body(name: Seq<u8>, freq: u64) -> Seq<u8> {
    wire::nonzero_field(2, freq) + wire::len_field(10, name)
}

/// `PerfSampleDefaults { timebase = 1, followers = 4 (repeated), sample_scope = 5
/// (omitted if 0) }`.
pub open spec fn perf_sample_defaults_body(
    timebase_name: Seq<u8>,
    timebase_freq: u64,
    followers: Seq<Seq<u8>>,
    sample_scope: u32,
) -> Seq<u8> {
    wire::sub_message(1, timebase_body(timebase_name, timebase_freq)) + follower_events(
        followers,
        followers.len(),
    ) + wire::nonzero_field(5, sample_scope as u64)
}

/// `TracePacketDefaults { timestamp_clock_id = 58 (omitted if 0),
/// perf_sample_defaults = 12 }`.
pub open spec fn packet_defaults_body(clock_id: u32, sample_defaults: Seq<u8>) -> Seq<u8> {
    wire::nonzero_field(58, clock_id as u64) + wire::sub_message(12, sample_defaults)
}

/// `TracePacket { sequence_flags = 13 (omitted if 0), trace_packet_defaults = 59 }`.
pub open spec fn perf_defaults_packet(
    timebase_name: Seq<u8>,
    timebase_freq: u64,
    followers: Seq<Seq<u8>>,
    sample_scope: u32,
    clock_id: u32,
    sequence_flags: u32,
) -> Seq<u8> {
    wire::nonzero_field(13, sequence_flags as u64) + wire::sub_message(
        59,
        packet_defaults_body(
            clock_id,
            perf_sample_defaults_body(timebase_name, timebase_freq, followers, sample_scope),
        ),
    )
}

/// Write a TracePacket that carries PerfSampleDefaults into `w`.
pub fn write_perf_defaults_packet(
    w: &mut ProtoWriter,
    timebase_name: &[u8],
    timebase_freq: u64,
    followers: &[&[u8]],
    sample_scope: u32,
    timestamp_clock_id: u32,
    sequence_flags: u32,
)
    ensures
        final(w)@ == old(w)@ + perf_defaults_packet(
            timebase_name@,
            timebase_freq,
            contents(followers@),
            sample_scope,
            timestamp_clock_id,
            sequence_flags,
        ),
{
    let ghost fs = contents(followers@);
    let ghost tb = timebase_body(timebase_name@, timebase_freq);
    let ghost psd = perf_sample_defaults_body(
        timebase_name@,
        timebase_freq,
        contents(followers@),
        sample_scope,
    );
    let ghost tpd = packet_defaults_body(timestamp_clock_id, psd);
    w.write_nonzero(13, sequence_flags as u64);
    let ghost at59 = w@;
    let packet_marker: usize = w.begin_message(59);
    let ghost in59 = w@;
    w.write_nonzero(58, timestamp_clock_id as u64);
    let ghost at12 = w@;
    let defaults_marker: usize = w.begin_message(12);
    let ghost in12 = w@;
    let timebase_marker: usize = w.begin_message(1);
    let ghost in1 = w@;
    w.write_nonzero(2, timebase_freq);
    w.write_string(10, timebase_name);
    proof {
        assert(w@ =~= in1 + tb);
        writer::lemma_closed_message(in12, 1, tb);
    }
    w.end_message(timebase_marker);
    let ghost head = wire::sub_message(1, tb);
    assert(w@ == in12 + head);
    let mut i: usize = 0;
    while i < followers.len()
        invariant
            i <= followers@.len(),
            fs == contents(followers@),
            w@ == in12 + head + follower_events(fs, i as nat),
        decreases followers@.len() - i,
    {
        let name: &[u8] = followers[i];
        let ghost before = w@;
        let marker: usize = w.begin_message(4);
        w.write_string(4, name);
        proof {
            writer::lemma_closed_message(before, 4, wire::len_field(4, name@));
        }
        w.end_message(marker);
        i += 1;
        assert(w@ =~= in12 + head + follower_events(fs, i as nat));
    }
    w.write_nonzero(5, sample_scope as u64);
    proof {
        assert(w@ =~= in12 + psd);
        writer::lemma_closed_message(at12, 12, psd);
    }
    w.end_message(defaults_marker);
    proof {
        assert(w@ =~= in59 + tpd);
        writer::lemma_closed_message(at59, 59, tpd);
    }
    w.end_message(packet_marker);
    assert(w@ =~= old(w)@ + perf_defaults_packet(
        timebase_name@,
        timebase_freq,
        contents(followers@),
        sample_scope,
        timestamp_clock_id,
        sequence_flags,
    ));
}

/// The first `n` counts, each as field 7.
pub open spec fn follower_counts_fields(counts: Seq<u64>, n: nat) -> Seq<u8>
    decreases n,
{
    if n == 0 {
        Seq::empty()
    } else {
        follower_counts_fields(counts, (n - 1) as nat) + wire::varint_field(7, counts[n - 1])
    }
}

/// `PerfSample { cpu = 1, pid = 2, tid = 3, callstack_iid = 4, timebase_count = 6,
/// follower_counts = 7 (repeated), data_address = 20, data_symbol = 21 }`. A field
/// that is 0 or absent is left out; of the counts of the followers, none is.
pub open spec fn perf_sample_body(
    cpu: u32,
    pid: u32,
    tid: u32,
    callstack_iid: u64,
    timebase_count: u64,
    follower_counts: Seq<u64>,
    data_address: u64,
    data_symbol: Option<Seq<u8>>,
) -> Seq<u8> {
    wire::nonzero_field(1, cpu as u64) + wire::nonzero_field(2, pid as u64) + wire::nonzero_field(
        3,
        tid as u64,
    ) + wire::nonzero_field(4, callstack_iid) + wire::nonzero_field(6, timebase_count)
        + follower_counts_fields(follower_counts, follower_counts.len()) + wire::nonzero_field(
        20,
        data_address,
    ) + match data_symbol {
        Some(sym) => wire::len_field(21, sym),
        None => Seq::empty(),
    }
}

/// The bytes of an optional slice.
pub open spec fn opt_bytes(s: Option<&[u8]>) -> Option<Seq<u8>> {
    match s {
        Some(b) => Some(b@),
        None => None,
    }
}

/// Write a PerfSample as length-delimited field `field` of the current message.
pub fn write_perf_sample(
    w: &mut ProtoWriter,
    field: u32,
    cpu: u32,
    pid: u32,
    tid: u32,
    callstack_iid: u64,
    timebase_count: u64,
    follower_counts: &[u64],
    data_address: u64,
    data_symbol: Option<&[u8]>,
)
    ensures
        final(w)@ == old(w)@ + wire::sub_message(
            field,
            perf_sample_body(
                cpu,
                pid,
                tid,
                callstack_iid,
                timebase_count,
                follower_counts@,
                data_address,
                opt_bytes(data_symbol),
            ),
        ),
{
    let ghost body = perf_sample_body(
        cpu,
        pid,
        tid,
        callstack_iid,
        timebase_count,
        follower_counts@,
        data_address,
        opt_bytes(data_symbol),
    );
    let marker: usize = w.begin_message(field);
    let ghost start = w@;
    w.write_nonzero(1, cpu as u64);
    w.write_nonzero(2, pid as u64);
    w.write_nonzero(3, tid as u64);
    w.write_nonzero(4, callstack_iid);
    w.write_nonzero(6, timebase_count);
    let ghost head = w@;
    let mut i: usize = 0;
    while i < follower_counts.len()
        invariant
            i <= follower_counts@.len(),
            w@ == head + follower_counts_fields(follower_counts@, i as nat),
        decreases follower_counts@.len() - i,
    {
        let c: u64 = follower_counts[i];
        w.write_uint64(7, c);
        i += 1;
        assert(w@ =~= head + follower_counts_fields(follower_counts@, i as nat));
    }
    w.write_nonzero(20, data_address);
    if let Some(sym) = data_symbol {
        w.write_string(21, sym);
    }
    proof {
        assert(w@ =~= start + body);
        writer::lemma_closed_message(old(w)@, field, body);
    }
    w.end_message(marker);
}

/// The name that a task-state event carries of `comm`: its first 64 bytes.
pub open spec fn capped_comm(comm: Seq<u8>) -> Seq<u8> {
    if comm.len() > MAX_COMM_LEN {
        comm.take(MAX_COMM_LEN as int)
    } else {
        comm
    }
}

/// `GenericKernelTaskStateEvent { cpu = 1, comm = 2 (omitted when empty), tid = 3,
/// state = 4, prio = 5 }`.
pub open spec fn kernel_task_state_body(
    cpu: i32,
    comm: Seq<u8>,
    tid: i64,
    state: u32,
    prio: i32,
) -> Seq<u8> {
    wire::varint_field(1, wire::int32_bits(cpu)) + wire::nonempty_field(2, capped_comm(comm))
        + wire::varint_field(3, wire::int64_bits(tid)) + wire::varint_field(4, state as u64)
        + wire::varint_field(5, wire::int32_bits(prio))
}

/// Write a GenericKernelTaskStateEvent as length-delimited field `field` of the
/// current message. The name is cut to 64 bytes.
pub fn write_kernel_task_state_event(
    w: &mut ProtoWriter,
    field: u32,
    cpu: i32,
    comm: &[u8],
    tid: i64,
    state: u32,
    prio: i32,
)
    ensures
        final(w)@ == old(w)@ + wire::sub_message(
            field,
            kernel_task_state_body(cpu, comm@, tid, state, prio),
        ),
{
    let ghost body = kernel_task_state_body(cpu, comm@, tid, state, prio);
    let marker: usize = w.begin_message(field);
    let ghost start = w@;
    w.write_int32(1, cpu);
    if comm.len() > MAX_COMM_LEN {
        w.write_nonempty(2, slice_subrange(comm, 0, MAX_COMM_LEN));
    } else {
        w.write_nonempty(2, comm);
    }
    w.write_int64(3, tid);
    w.write_uint32(4, state);
    w.write_int32(5, prio);
    proof {
        assert(w@ =~= start + body);
        writer::lemma_closed_message(old(w)@, field, body);
    }
    w.end_message(marker);
}

// ---- read back ---------------------------------------------------------------

/// Counts are read back in the order they were written.
proof fn lemma_counts_read_back(counts: Seq<u64>, n: nat)
    requires
        n <= counts.len(),
    ensures
        wire::complete(follower_counts_fields(counts, n)),
        follower_counts_fields(counts, n).len() <= 20 * n,
        wire::under(follower_counts_fields(counts, n), 7).len() == n,
        forall|k: int|
            0 <= k < n ==> (#[trigger] wire::under(follower_counts_fields(counts, n), 7)[k])
                == FieldValue::Varint(counts[k]),
        forall|f: u32|
            f != 7 ==> #[trigger] wire::under(follower_counts_fields(counts, n), f) == Seq::<
                FieldValue,
            >::empty(),
    decreases n,
{
    if n == 0 {
        wire::lemma_under_empty();
    } else {
        let m = (n - 1) as nat;
        let front = follower_counts_fields(counts, m);
        let last = wire::varint_field(7, counts[n - 1]);
        lemma_counts_read_back(counts, m);
        wire::lemma_under_varint(7, counts[n - 1]);
        wire::lemma_join(front, last);
        let all = wire::under(front + last, 7);
        assert(all == wire::under(front, 7) + wire::one(counts[n - 1]));
        assert forall|f: u32| f != 7 implies #[trigger] wire::under(front + last, f) == Seq::<
            FieldValue,
        >::empty() by {
            assert(wire::under(front, f) + wire::under(last, f) =~= Seq::<FieldValue>::empty());
        }
    }
}

/// What a reader of a sample finds: the CPU under 1, the process under 2, the thread
/// under 3, the callstack under 4, how much of the timebase it stands for under 6, the
/// counts of the followers under 7 in their order, the data's address under 20 and what
/// it belongs to under 21. A number that is 0 is left out, but for the followers'.
#[verifier::spinoff_prover]
#[verifier::rlimit(40)]
pub proof fn lemma_perf_sample_read_back(
    cpu: u32,
    pid: u32,
    tid: u32,
    callstack_iid: u64,
    timebase_count: u64,
    follower_counts: Seq<u64>,
    data_address: u64,
    data_symbol: Option<Seq<u8>>,
)
    requires
        data_symbol matches Some(s) ==> s.len() <= u64::MAX,
    ensures
        ({
            let b = perf_sample_body(
                cpu,
                pid,
                tid,
                callstack_iid,
                timebase_count,
                follower_counts,
                data_address,
                data_symbol,
            );
            &&& wire::complete(b)
            &&& wire::under(b, 1) == wire::one_unless_zero(cpu as u64)
            &&& wire::under(b, 2) == wire::one_unless_zero(pid as u64)
            &&& wire::under(b, 3) == wire::one_unless_zero(tid as u64)
            &&& wire::under(b, 4) == wire::one_unless_zero(callstack_iid)
            &&& wire::under(b, 6) == wire::one_unless_zero(timebase_count)
            &&& wire::under(b, 7).len() == follower_counts.len()
            &&& forall|k: int|
                0 <= k < follower_counts.len() ==> (#[trigger] wire::under(b, 7)[k])
                    == FieldValue::Varint(follower_counts[k])
            &&& wire::under(b, 20) == wire::one_unless_zero(data_address)
            &&& data_symbol is None ==> wire::under(b, 21).len() == 0
            &&& data_symbol matches Some(s) ==> wire::under(b, 21) == wire::one_text(s)
        }),
{
    let p1 = wire::nonzero_field(1, cpu as u64);
    let p2 = wire::nonzero_field(2, pid as u64);
    let p3 = wire::nonzero_field(3, tid as u64);
    let p4 = wire::nonzero_field(4, callstack_iid);
    let p6 = wire::nonzero_field(6, timebase_count);
    let p7 = follower_counts_fields(follower_counts, follower_counts.len());
    let p20 = wire::nonzero_field(20, data_address);
    let p21 = match data_symbol {
        Some(s) => wire::len_field(21, s),
        None => Seq::empty(),
    };
    wire::lemma_under_nonzero(1, cpu as u64);
    wire::lemma_under_nonzero(2, pid as u64);
    wire::lemma_under_nonzero(3, tid as u64);
    wire::lemma_under_nonzero(4, callstack_iid);
    wire::lemma_under_nonzero(6, timebase_count);
    lemma_counts_read_back(follower_counts, follower_counts.len());
    wire::lemma_under_nonzero(20, data_address);
    wire::lemma_under_empty();
    match data_symbol {
        Some(s) => wire::lemma_under_len(21, s),
        None => {},
    }
    let s2 = p1 + p2;
    let s3 = s2 + p3;
    let s4 = s3 + p4;
    let s6 = s4 + p6;
    let s7 = s6 + p7;
    let s20 = s7 + p20;
    let b = s20 + p21;
    wire::lemma_join(p1, p2);
    wire::lemma_join(s2, p3);
    wire::lemma_join(s3, p4);
    wire::lemma_join(s4, p6);
    wire::lemma_join(s6, p7);
    wire::lemma_join(s7, p20);
    wire::lemma_join(s20, p21);
    assert(wire::under(b, 1) =~= wire::one_unless_zero(cpu as u64));
    assert(wire::under(b, 2) =~= wire::one_unless_zero(pid as u64));
    assert(wire::under(b, 3) =~= wire::one_unless_zero(tid as u64));
    assert(wire::under(b, 4) =~= wire::one_unless_zero(callstack_iid));
    assert(wire::under(b, 6) =~= wire::one_unless_zero(timebase_count));
    assert(wire::under(b, 7) =~= wire::under(p7, 7));
    assert(wire::under(b, 20) =~= wire::one_unless_zero(data_address));
    assert(wire::under(b, 21) =~= wire::under(p21, 21));
}

/// A follower's name: 4 in the message under 4.
pub open spec fn follower_told(v: FieldValue, name: Seq<u8>) -> bool {
    exists|m: Seq<u8>| v == FieldValue::Len(m) && #[trigger] wire::under(m, 4) == wire::one_text(
        name,
    )
}

proof fn lemma_followers_read_back(names: Seq<Seq<u8>>, n: nat)
    requires
        n <= names.len(),
        follower_events(names, n).len() < 0x8_0000_0000,
    ensures
        wire::complete(follower_events(names, n)),
        wire::under(follower_events(names, n), 4).len() == n,
        forall|k: int|
            0 <= k < n ==> follower_told(
                #[trigger] wire::under(follower_events(names, n), 4)[k],
                names[k],
            ),
        forall|f: u32|
            f != 4 ==> #[trigger] wire::under(follower_events(names, n), f) == Seq::<
                FieldValue,
            >::empty(),
    decreases n,
{
    if n == 0 {
        wire::lemma_under_empty();
    } else {
        let m = (n - 1) as nat;
        let front = follower_events(names, m);
        let body = wire::len_field(4, names[n - 1]);
        let last = wire::sub_message(4, body);
        lemma_followers_read_back(names, m);
        wire::lemma_under_len(4, names[n - 1]);
        wire::lemma_under_sub_message(4, body);
        wire::lemma_join(front, last);
        let all = wire::under(front + last, 4);
        assert(all == wire::under(front, 4) + wire::one_text(body));
        assert(wire::under(body, 4) == wire::one_text(names[n - 1]));
        assert forall|k: int| 0 <= k < n implies follower_told(#[trigger] all[k], names[k]) by {
            if k < m {
                assert(all[k] == wire::under(front, 4)[k]);
            }
        }
        assert forall|f: u32| f != 4 implies #[trigger] wire::under(front + last, f) == Seq::<
            FieldValue,
        >::empty() by {
            assert(wire::under(front, f) + wire::under(last, f) =~= Seq::<FieldValue>::empty());
        }
    }
}

/// What a reader of the defaults of a sample sequence finds. The packet clears what was
/// known (13); under 59 it has the clock (58) and, under 12, what every sample of the
/// sequence shares: the timebase under 1, with its name under 10 and its frequency
/// under 2; the followers under 4, in their order; the scope under 5.
#[verifier::spinoff_prover]
#[verifier::rlimit(40)]
pub proof fn lemma_perf_defaults_read_back(
    timebase_name: Seq<u8>,
    timebase_freq: u64,
    followers: Seq<Seq<u8>>,
    sample_scope: u32,
    clock_id: u32,
    sequence_flags: u32,
)
    requires
        perf_defaults_packet(
            timebase_name,
            timebase_freq,
            followers,
            sample_scope,
            clock_id,
            sequence_flags,
        ).len() < 0x8_0000_0000,
    ensures
        ({
            let p = perf_defaults_packet(
                timebase_name,
                timebase_freq,
                followers,
                sample_scope,
                clock_id,
                sequence_flags,
            );
            &&& wire::under(p, 13) == wire::one_unless_zero(sequence_flags as u64)
            &&& exists|d: Seq<u8>, s: Seq<u8>, t: Seq<u8>|
                {
                    &&& #[trigger] wire::one_text(d) == wire::under(p, 59)
                    &&& wire::under(d, 58) == wire::one_unless_zero(clock_id as u64)
                    &&& #[trigger] wire::one_text(s) == wire::under(d, 12)
                    &&& wire::under(s, 5) == wire::one_unless_zero(sample_scope as u64)
                    &&& #[trigger] wire::one_text(t) == wire::under(s, 1)
                    &&& wire::under(t, 10) == wire::one_text(timebase_name)
                    &&& wire::under(t, 2) == wire::one_unless_zero(timebase_freq)
                    &&& wire::under(s, 4).len() == followers.len()
                    &&& forall|k: int|
                        0 <= k < followers.len() ==> follower_told(
                            #[trigger] wire::under(s, 4)[k],
                            followers[k],
                        )
                }
        }),
{
    let t = timebase_body(timebase_name, timebase_freq);
    let s = perf_sample_defaults_body(timebase_name, timebase_freq, followers, sample_scope);
    let d = packet_defaults_body(clock_id, s);
    let p = perf_defaults_packet(
        timebase_name,
        timebase_freq,
        followers,
        sample_scope,
        clock_id,
        sequence_flags,
    );
    let t1 = wire::nonzero_field(2, timebase_freq);
    let t2 = wire::len_field(10, timebase_name);
    wire::lemma_under_nonzero(2, timebase_freq);
    wire::lemma_under_len(10, timebase_name);
    wire::lemma_join(t1, t2);
    assert(wire::under(t, 10) =~= wire::one_text(timebase_name));
    assert(wire::under(t, 2) =~= wire::one_unless_zero(timebase_freq));
    let s1 = wire::sub_message(1, t);
    let s4 = follower_events(followers, followers.len());
    let s5 = wire::nonzero_field(5, sample_scope as u64);
    wire::lemma_under_sub_message(1, t);
    lemma_followers_read_back(followers, followers.len());
    wire::lemma_under_nonzero(5, sample_scope as u64);
    wire::lemma_join(s1, s4);
    wire::lemma_join(s1 + s4, s5);
    assert(wire::under(s, 1) =~= wire::one_text(t));
    assert(wire::under(s, 4) =~= wire::under(s4, 4));
    assert(wire::under(s, 5) =~= wire::one_unless_zero(sample_scope as u64));
    let d1 = wire::nonzero_field(58, clock_id as u64);
    let d2 = wire::sub_message(12, s);
    wire::lemma_under_nonzero(58, clock_id as u64);
    wire::lemma_under_sub_message(12, s);
    wire::lemma_join(d1, d2);
    assert(wire::under(d, 58) =~= wire::one_unless_zero(clock_id as u64));
    assert(wire::under(d, 12) =~= wire::one_text(s));
    let p1 = wire::nonzero_field(13, sequence_flags as u64);
    let p2 = wire::sub_message(59, d);
    wire::lemma_under_nonzero(13, sequence_flags as u64);
    wire::lemma_under_sub_message(59, d);
    wire::lemma_join(p1, p2);
    assert(wire::under(p, 13) =~= wire::one_unless_zero(sequence_flags as u64));
    assert(wire::under(p, 59) =~= wire::one_text(d));
    assert(wire::one_text(d) == wire::under(p, 59) && wire::one_text(s) == wire::under(d, 12)
        && wire::one_text(t) == wire::under(s, 1));
}

} // verus!
