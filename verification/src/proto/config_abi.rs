//! Data-source configs over caller-provided buffers: encoders that write into a
//! buffer and decoders that tell malformed input apart.

use crate::bytes;
use crate::bytes::{low_u32, u32_as_i32};
use crate::proto::reader::ProtoReader;
use crate::proto::sismo_config;
use crate::proto::sismo_config::{cpu_encode, heap_encode, sign_extended};
use crate::proto::wire;
use crate::proto::wire::FieldValue;
use crate::proto::writer::ProtoWriter;
use vstd::prelude::*;
use vstd::slice::slice_subrange;

verus! {

/// Field number of the config in a `DataSourceConfig`.
const CONFIG_FIELD: u64 = 2000;

/// What `emit` leaves in a buffer: the bytes at its start and their number, or
/// nothing and 0 where they do not fit.
pub open spec fn emitted(bytes: Seq<u8>, before: Seq<u8>, after: Seq<u8>, n: usize) -> bool {
    if bytes.len() > before.len() {
        n == 0 && after == before
    } else {
        n == bytes.len() && after == bytes + before.skip(bytes.len() as int)
    }
}

/// Copy `bytes` to the start of `out`; return their number, or 0 where they do
/// not fit.
pub fn emit(bytes: &[u8], out: &mut [u8]) -> (n: usize)
    ensures
        emitted(bytes@, old(out)@, final(out)@, n),
{
    if bytes.len() > out.len() {
        return 0;
    }
    let mut i: usize = 0;
    while i < bytes.len()
        invariant
            i <= bytes@.len() <= out@.len(),
            out@.len() == old(out)@.len(),
            out@ == bytes@.take(i as int) + old(out)@.skip(i as int),
        decreases bytes@.len() - i,
    {
        out[i] = bytes[i];
        i += 1;
        assert(out@ =~= bytes@.take(i as int) + old(out)@.skip(i as int));
    }
    assert(out@ =~= bytes@ + old(out)@.skip(bytes@.len() as int));
    bytes.len()
}

/// Decode a base-128 varint: its value and the bytes it takes. `None` where it is
/// cut off or longer than 64 bits.
pub fn read_varint(bytes: &[u8]) -> (r: Option<(u64, usize)>)
    ensures
        match wire::read_varint(bytes@) {
            Some((v, n)) => r == Some((v, n as usize)) && 0 < n <= bytes@.len(),
            None => r is None,
        },
{
    let mut reader = ProtoReader::new(bytes);
    proof {
        wire::lemma_read_groups_bounds(bytes@, wire::MAX_VARINT_LEN as nat);
    }
    match reader.read_varint() {
        Some(v) => Some((v, reader.pos)),
        None => None,
    }
}

/// The bytes that a field of `wire_type` takes at the start of `bytes`. `None`
/// where it is malformed or cut off.
pub fn skip_field(wire_type: u64, bytes: &[u8]) -> (r: Option<usize>)
    ensures
        match wire::read_payload(wire_type as nat, bytes@) {
            Some((v, n)) => r == Some(n as usize) && n <= bytes@.len(),
            None => r is None,
        },
{
    if wire_type == 0 {
        match read_varint(bytes) {
            Some((_, n)) => Some(n),
            None => None,
        }
    } else if wire_type == 1 {
        if bytes.len() >= 8 {
            Some(8)
        } else {
            None
        }
    } else if wire_type == 2 {
        match read_varint(bytes) {
            Some((len, n)) => {
                if len <= (bytes.len() - n) as u64 {
                    Some(n + len as usize)
                } else {
                    None
                }
            },
            None => None,
        }
    } else if wire_type == 5 {
        if bytes.len() >= 4 {
            Some(4)
        } else {
            None
        }
    } else {
        None
    }
}

/// Where in a serialized `DataSourceConfig` the payload of its first
/// length-delimited field 2000 stands: offset and length. `None` where it has
/// none, or is malformed before it.
pub open spec fn config_span(s: Seq<u8>) -> Option<(nat, nat)>
    decreases s.len(),
{
    match wire::read_varint(s) {
        Some((t, n)) => match wire::read_payload((t % 8) as nat, s.skip(n as int)) {
            Some((v, m)) => match v {
                FieldValue::Len(b) if t / 8 == 2000 => Some(((n + m - b.len()) as nat, b.len())),
                _ => if 0 < n + m <= s.len() {
                    match config_span(s.skip((n + m) as int)) {
                        Some((off, len)) => Some((n + m + off, len)),
                        None => None,
                    }
                } else {
                    None
                },
            },
            None => None,
        },
        None => None,
    }
}

/// Find the config inside a serialized `DataSourceConfig`: the offset and the
/// length of its bytes.
pub fn sismo_config_extract(dsc: &[u8]) -> (r: Option<(usize, usize)>)
    ensures
        match config_span(dsc@) {
            Some((off, len)) => r == Some((off as usize, len as usize)) && off + len <= dsc@.len(),
            None => r is None,
        },
{
    let mut i: usize = 0;
    assert(dsc@.skip(0) =~= dsc@);
    loop
        invariant
            i <= dsc@.len(),
            match config_span(dsc@.skip(i as int)) {
                Some((off, len)) => config_span(dsc@) == Some(((i + off) as nat, len)),
                None => config_span(dsc@) is None,
            },
        decreases dsc@.len() - i,
    {
        let ghost here = dsc@.skip(i as int);
        let rest: &[u8] = slice_subrange(dsc, i, dsc.len());
        assert(rest@ =~= here);
        let (t, n): (u64, usize) = match read_varint(rest) {
            Some(v) => v,
            None => {
                return None;
            },
        };
        let body: &[u8] = slice_subrange(dsc, i + n, dsc.len());
        assert(body@ =~= here.skip(n as int));
        let size: usize = match skip_field(t % 8, body) {
            Some(m) => m,
            None => {
                return None;
            },
        };
        if t / 8 == CONFIG_FIELD && t % 8 == 2 {
            let (len, head): (u64, usize) = match read_varint(body) {
                Some(v) => v,
                None => {
                    return None;
                },
            };
            return Some((i + n + head, len as usize));
        }
        assert(here.skip((n + size) as int) =~= dsc@.skip(i + n + size));
        i = i + n + size;
    }
}

/// The varint fields of a message in order, and whether all of it is well formed.
/// Where it is not, the fields before the malformed one.
pub open spec fn raw_varint_fields(s: Seq<u8>) -> (Seq<(u64, u64)>, bool)
    decreases s.len(),
{
    if s.len() == 0 {
        (Seq::empty(), true)
    } else {
        match wire::read_varint(s) {
            Some((t, n)) => match wire::read_payload((t % 8) as nat, s.skip(n as int)) {
                Some((v, m)) => if 0 < n + m <= s.len() {
                    let (more, ok) = raw_varint_fields(s.skip((n + m) as int));
                    match v {
                        FieldValue::Varint(x) => (seq![(t / 8, x)] + more, ok),
                        _ => (more, ok),
                    }
                } else {
                    (Seq::empty(), false)
                },
                None => (Seq::empty(), false),
            },
            None => (Seq::empty(), false),
        }
    }
}

/// The varint fields of a config message, and whether it is well formed.
pub fn decode_varint_fields(bytes: &[u8]) -> (r: (Vec<(u64, u64)>, bool))
    ensures
        r.0@ == raw_varint_fields(bytes@).0,
        r.1 == raw_varint_fields(bytes@).1,
{
    let mut out: Vec<(u64, u64)> = Vec::new();
    let mut i: usize = 0;
    assert(bytes@.skip(0) =~= bytes@);
    let ghost all = raw_varint_fields(bytes@);
    while i < bytes.len()
        invariant
            i <= bytes@.len(),
            out@ + raw_varint_fields(bytes@.skip(i as int)).0 == all.0,
            raw_varint_fields(bytes@.skip(i as int)).1 == all.1,
            all == raw_varint_fields(bytes@),
        decreases bytes@.len() - i,
    {
        let ghost here = bytes@.skip(i as int);
        let ghost before = out@;
        let rest: &[u8] = slice_subrange(bytes, i, bytes.len());
        assert(rest@ =~= here);
        let (t, n): (u64, usize) = match read_varint(rest) {
            Some(v) => v,
            None => {
                assert(out@ =~= out@ + raw_varint_fields(here).0);
                return (out, false);
            },
        };
        let body: &[u8] = slice_subrange(bytes, i + n, bytes.len());
        assert(body@ =~= here.skip(n as int));
        let size: usize = match skip_field(t % 8, body) {
            Some(m) => m,
            None => {
                assert(out@ =~= out@ + raw_varint_fields(here).0);
                return (out, false);
            },
        };
        assert(here.skip((n + size) as int) =~= bytes@.skip(i + n + size));
        if t % 8 == 0 {
            if let Some((v, _)) = read_varint(body) {
                out.push((t / 8, v));
            }
        }
        i = i + n + size;
        assert(out@ + raw_varint_fields(bytes@.skip(i as int)).0 =~= before + raw_varint_fields(
            here,
        ).0);
    }
    assert(bytes@.skip(i as int) =~= Seq::empty());
    assert(out@ =~= out@ + raw_varint_fields(bytes@.skip(i as int)).0);
    (out, true)
}

/// The value of the last varint field `field`, or 0.
pub open spec fn last_raw_value(vs: Seq<(u64, u64)>, field: u64) -> u64
    decreases vs.len(),
{
    if vs.len() == 0 {
        0
    } else if vs.last().0 == field {
        vs.last().1
    } else {
        last_raw_value(vs.drop_last(), field)
    }
}

fn last_raw(vs: &Vec<(u64, u64)>, field: u64) -> (r: u64)
    ensures
        r == last_raw_value(vs@, field),
{
    let mut i: usize = vs.len();
    assert(vs@.take(i as int) =~= vs@);
    while i > 0
        invariant
            i <= vs@.len(),
            last_raw_value(vs@.take(i as int), field) == last_raw_value(vs@, field),
        decreases i,
    {
        let ghost seen = vs@.take(i as int);
        if vs[i - 1].0 == field {
            assert(seen.last() == vs@[i - 1]);
            return vs[i - 1].1;
        }
        assert(seen.drop_last() =~= vs@.take(i - 1));
        i -= 1;
    }
    0
}

/// The value of the last varint field `field` of the message `s`, or 0.
pub open spec fn raw_value(s: Seq<u8>, field: u64) -> u64 {
    last_raw_value(raw_varint_fields(s).0, field)
}

// ---- the three configs -----------------------------------------------------

/// Write a CPU-samples config into `out`; the length, or 0 where it does not fit.
pub fn sismo_config_cpu_encode(target_pid: u32, interval_us: u32, out: &mut [u8]) -> (n: usize)
    ensures
        emitted(sismo_config::cpu_config(target_pid, interval_us), old(out)@, final(out)@, n),
{
    let b = cpu_encode(target_pid, interval_us);
    emit(b.as_slice(), out)
}

/// Decode a CPU-samples config: whether it is well formed, `target_pid` and
/// `interval_us`. Of a malformed one, the values before the fault.
pub fn sismo_config_cpu_decode(bytes: &[u8]) -> (r: (bool, u32, u32))
    ensures
        r.0 == raw_varint_fields(bytes@).1,
        r.1 == raw_value(bytes@, 1) % 0x1_0000_0000,
        r.2 == raw_value(bytes@, 2) % 0x1_0000_0000,
{
    let (vs, ok) = decode_varint_fields(bytes);
    (ok, low_u32(last_raw(&vs, 1)), low_u32(last_raw(&vs, 2)))
}

/// Write a heap config into `out`; the length, or 0 where it does not fit.
pub fn sismo_config_heap_encode(
    target_pid: u32,
    ring_size_bytes: u64,
    sample_interval_bytes: u64,
    out: &mut [u8],
) -> (n: usize)
    ensures
        emitted(
            sismo_config::heap_config(target_pid, ring_size_bytes, sample_interval_bytes),
            old(out)@,
            final(out)@,
            n,
        ),
{
    let b = heap_encode(target_pid, ring_size_bytes, sample_interval_bytes);
    emit(b.as_slice(), out)
}

/// Decode a heap config: whether it is well formed, `target_pid`,
/// `ring_size_bytes` and `sample_interval_bytes`.
pub fn sismo_config_heap_decode(bytes: &[u8]) -> (r: (bool, u32, u64, u64))
    ensures
        r.0 == raw_varint_fields(bytes@).1,
        r.1 == raw_value(bytes@, 1) % 0x1_0000_0000,
        r.2 == raw_value(bytes@, 2),
        r.3 == raw_value(bytes@, 3),
{
    let (vs, ok) = decode_varint_fields(bytes);
    (ok, low_u32(last_raw(&vs, 1)), last_raw(&vs, 2), last_raw(&vs, 3))
}

/// A sched config that holds the buffer size alone; nothing where it is 0.
pub open spec fn buffer_events_config(kernel_buffer_events: i32) -> Seq<u8> {
    wire::nonzero_field(1, wire::int64_bits(kernel_buffer_events as i64))
}

/// Write a sched config into `out`; the length, or 0 where it does not fit.
pub fn sismo_config_sched_encode(kernel_buffer_events: i32, out: &mut [u8]) -> (n: usize)
    ensures
        emitted(buffer_events_config(kernel_buffer_events), old(out)@, final(out)@, n),
{
    let mut w = ProtoWriter::new();
    w.write_nonzero(1, sign_extended(kernel_buffer_events));
    assert(w@ =~= buffer_events_config(kernel_buffer_events));
    emit(w.bytes(), out)
}

/// Decode a sched config: whether it is well formed, and the buffer size.
pub fn sismo_config_sched_decode(bytes: &[u8]) -> (r: (bool, i32))
    ensures
        r.0 == raw_varint_fields(bytes@).1,
        r.1 == bytes::bits_to_i32((raw_value(bytes@, 1) % 0x1_0000_0000) as int),
{
    let (vs, ok) = decode_varint_fields(bytes);
    (ok, u32_as_i32(low_u32(last_raw(&vs, 1))))
}

// ---- decoding undoes encoding ----------------------------------------------

/// A varint field at the start of a message is read as such.
proof fn lemma_raw_varint(field: u32, value: u64, rest: Seq<u8>)
    ensures
        raw_varint_fields(wire::varint_field(field, value) + rest) == (
            seq![(field as u64, value)] + raw_varint_fields(rest).0,
            raw_varint_fields(rest).1,
        ),
{
    let t = wire::tag(field, 0);
    let v = wire::varint(value as nat);
    let s = wire::varint_field(field, value) + rest;
    assert(s =~= t + (v + rest));
    wire::lemma_read_tag(field, 0, v + rest);
    assert(s.skip(t.len() as int) =~= v + rest);
    wire::lemma_read_written_varint(value, rest);
    assert(s.skip((t.len() + v.len()) as int) =~= rest);
    wire::lemma_varint64_len((field * 8) as u64);
}

proof fn lemma_raw_three(a: u64, b: u64, c: u64)
    ensures
        ({
            let s = wire::nonzero_field(1, a) + wire::nonzero_field(2, b) + wire::nonzero_field(
                3,
                c,
            );
            &&& raw_varint_fields(s).1
            &&& raw_value(s, 1) == a
            &&& raw_value(s, 2) == b
            &&& raw_value(s, 3) == c
        }),
{
    let none = Seq::<u8>::empty();
    let sc = wire::nonzero_field(3, c);
    let sb = wire::nonzero_field(2, b) + sc;
    let sa = wire::nonzero_field(1, a) + sb;
    assert(wire::nonzero_field(1, a) + wire::nonzero_field(2, b) + wire::nonzero_field(3, c)
        =~= sa);
    if c != 0 {
        lemma_raw_varint(3, c, none);
        assert(sc + none =~= sc);
        assert(raw_varint_fields(sc).0 =~= seq![(3u64, c)]);
    }
    if b != 0 {
        lemma_raw_varint(2, b, sc);
    } else {
        assert(sb =~= sc);
    }
    if a != 0 {
        lemma_raw_varint(1, a, sb);
    } else {
        assert(sa =~= sb);
    }
    reveal_with_fuel(last_raw_value, 4);
    assert(raw_varint_fields(sa).0.len() <= 3);
}

/// Decoding a CPU-samples config gives back what was encoded, and finds it well
/// formed.
pub proof fn lemma_raw_cpu_round_trip(target_pid: u32, interval_us: u32)
    ensures
        ({
            let s = sismo_config::cpu_config(target_pid, interval_us);
            &&& raw_varint_fields(s).1
            &&& raw_value(s, 1) % 0x1_0000_0000 == target_pid
            &&& raw_value(s, 2) % 0x1_0000_0000 == interval_us
        }),
{
    lemma_raw_three(target_pid as u64, interval_us as u64, 0);
    assert(sismo_config::cpu_config(target_pid, interval_us) + wire::nonzero_field(3, 0)
        =~= sismo_config::cpu_config(target_pid, interval_us));
}

/// Decoding a heap config gives back what was encoded, and finds it well formed.
pub proof fn lemma_raw_heap_round_trip(target_pid: u32, ring_size: u64, interval: u64)
    ensures
        ({
            let s = sismo_config::heap_config(target_pid, ring_size, interval);
            &&& raw_varint_fields(s).1
            &&& raw_value(s, 1) % 0x1_0000_0000 == target_pid
            &&& raw_value(s, 2) == ring_size
            &&& raw_value(s, 3) == interval
        }),
{
    lemma_raw_three(target_pid as u64, ring_size, interval);
}

/// Decoding a sched config gives back the buffer size, negative ones too.
pub proof fn lemma_raw_sched_round_trip(kernel_buffer_events: i32)
    ensures
        ({
            let s = buffer_events_config(kernel_buffer_events);
            &&& raw_varint_fields(s).1
            &&& bytes::bits_to_i32((raw_value(s, 1) % 0x1_0000_0000) as int)
                == kernel_buffer_events
        }),
{
    let s = buffer_events_config(kernel_buffer_events);
    lemma_raw_three(wire::int64_bits(kernel_buffer_events as i64), 0, 0);
    assert(s + wire::nonzero_field(2, 0) + wire::nonzero_field(3, 0) =~= s);
}

} // verus!
