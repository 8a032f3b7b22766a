//! The configs of this tool's own data sources: one encoder and one decoder per
//! producer, and the extraction of the config bytes from Perfetto's
//! `DataSourceConfig`, which carries them at field 2000.

use crate::bytes;
use crate::bytes::{low_u32, u32_as_i32};
use crate::proto::reader::{ProtoReader, WireValue};
use crate::proto::wire;
use crate::proto::wire::FieldValue;
use crate::proto::writer::ProtoWriter;
use vstd::prelude::*;

verus! {

/// Field on Perfetto's `DataSourceConfig` that carries a config of this tool.
pub const DSC_SISMO_CONFIG_FIELD: u32 = 2000;

/// The payload of the first length-delimited field `field` of a message.
pub open spec fn first_len(fs: Seq<(u32, FieldValue)>, field: u32) -> Option<Seq<u8>>
    decreases fs.len(),
{
    if fs.len() == 0 {
        None
    } else {
        match fs[0].1 {
            FieldValue::Len(b) => if fs[0].0 == field {
                Some(b)
            } else {
                first_len(fs.drop_first(), field)
            },
            _ => first_len(fs.drop_first(), field),
        }
    }
}

/// The config bytes inside a serialized `DataSourceConfig`: the first
/// length-delimited field 2000. `None` where it has none.
pub fn config_extract<'a>(dsc: &'a [u8]) -> (r: Option<&'a [u8]>)
    ensures
        match first_len(wire::fields(dsc@), DSC_SISMO_CONFIG_FIELD) {
            Some(b) => r matches Some(s) && s@ == b,
            None => r is None,
        },
{
    let mut reader = ProtoReader::new(dsc);
    let ghost want = first_len(wire::fields(dsc@), DSC_SISMO_CONFIG_FIELD);
    loop
        invariant
            reader.wf(),
            reader.buf@ == dsc@,
            first_len(wire::fields(reader.rest()), DSC_SISMO_CONFIG_FIELD) == want,
            want == first_len(wire::fields(dsc@), DSC_SISMO_CONFIG_FIELD),
        decreases reader.rest().len(),
    {
        let ghost left = wire::fields(reader.rest());
        match reader.next() {
            Some((field, value)) => {
                assert(left.drop_first() =~= wire::fields(reader.rest()));
                if let WireValue::Len(b) = value {
                    if field == DSC_SISMO_CONFIG_FIELD {
                        return Some(b);
                    }
                }
            },
            None => {
                return None;
            },
        }
    }
}

/// The varint fields of a message, in order.
pub open spec fn varint_fields(fs: Seq<(u32, FieldValue)>) -> Seq<(u32, u64)>
    decreases fs.len(),
{
    if fs.len() == 0 {
        Seq::empty()
    } else {
        match fs[0].1 {
            FieldValue::Varint(v) => seq![(fs[0].0, v)] + varint_fields(fs.drop_first()),
            _ => varint_fields(fs.drop_first()),
        }
    }
}

/// The value of the last varint field `field`, or 0.
pub open spec fn last_value(vs: Seq<(u32, u64)>, field: u32) -> u64
    decreases vs.len(),
{
    if vs.len() == 0 {
        0
    } else if vs.last().0 == field {
        vs.last().1
    } else {
        last_value(vs.drop_last(), field)
    }
}

/// The value of the last varint field `field` of the message `s`, or 0.
pub open spec fn config_value(s: Seq<u8>, field: u32) -> u64 {
    last_value(varint_fields(wire::fields(s)), field)
}

/// The varint fields of a config message; a malformed tail ends the walk.
pub fn each_varint_field(bytes: &[u8]) -> (r: Vec<(u32, u64)>)
    ensures
        r@ == varint_fields(wire::fields(bytes@)),
{
    let mut out: Vec<(u32, u64)> = Vec::new();
    let mut reader = ProtoReader::new(bytes);
    let ghost all = varint_fields(wire::fields(bytes@));
    loop
        invariant_except_break
            reader.wf(),
            reader.buf@ == bytes@,
            out@ + varint_fields(wire::fields(reader.rest())) == all,
        ensures
            out@ == all,
        decreases reader.rest().len(),
    {
        let ghost left = wire::fields(reader.rest());
        let ghost before = out@;
        match reader.next() {
            Some((field, value)) => {
                assert(left.drop_first() =~= wire::fields(reader.rest()));
                if let WireValue::Varint(v) = value {
                    out.push((field, v));
                }
                assert(out@ + varint_fields(wire::fields(reader.rest())) =~= before + varint_fields(
                    left,
                ));
            },
            None => {
                assert(out@ + varint_fields(left) =~= out@);
                break;
            },
        }
    }
    out
}

/// The value of the last entry for `field`, or 0.
pub fn last_of(vs: &Vec<(u32, u64)>, field: u32) -> (r: u64)
    ensures
        r == last_value(vs@, field),
{
    let mut i: usize = vs.len();
    assert(vs@.take(i as int) =~= vs@);
    while i > 0
        invariant
            i <= vs@.len(),
            last_value(vs@.take(i as int), field) == last_value(vs@, field),
        decreases i,
    {
        let ghost seen = vs@.take(i as int);
        if vs[i - 1].0 == field {
            assert(seen.last() == vs@[i - 1]);
            return vs[i - 1].1;
        }
        assert(seen.drop_last() =~= vs@.take(i - 1));
        i -= 1;
    }
    0
}

// ---- sismo.macos_cpu_samples: target_pid = 1, interval_us = 2 --------------

/// A CPU-samples config; a field that is 0 is left out.
pub open spec fn cpu_config(target_pid: u32, interval_us: u32) -> Seq<u8> {
    wire::nonzero_field(1, target_pid as u64) + wire::nonzero_field(2, interval_us as u64)
}

pub fn cpu_encode(target_pid: u32, interval_us: u32) -> (r: Vec<u8>)
    ensures
        r@ == cpu_config(target_pid, interval_us),
{
    let mut w = ProtoWriter::new();
    w.write_nonzero(1, target_pid as u64);
    w.write_nonzero(2, interval_us as u64);
    assert(w@ =~= cpu_config(target_pid, interval_us));
    w.into_bytes()
}

/// Decodes `(target_pid, interval_us)`, 0 for absent fields.
pub fn cpu_decode(bytes: &[u8]) -> (r: (u32, u32))
    ensures
        r.0 == config_value(bytes@, 1) % 0x1_0000_0000,
        r.1 == config_value(bytes@, 2) % 0x1_0000_0000,
{
    let vs = each_varint_field(bytes);
    (low_u32(last_of(&vs, 1)), low_u32(last_of(&vs, 2)))
}

// ---- sismo.heap: target_pid = 1, ring_size_bytes = 2, sample_interval = 3 --

/// A heap config; a field that is 0 is left out.
pub open spec fn heap_config(target_pid: u32, ring_size: u64, interval: u64) -> Seq<u8> {
    wire::nonzero_field(1, target_pid as u64) + wire::nonzero_field(2, ring_size)
        + wire::nonzero_field(3, interval)
}

pub fn heap_encode(target_pid: u32, ring_size_bytes: u64, sample_interval_bytes: u64) -> (r: Vec<u8>)
    ensures
        r@ == heap_config(target_pid, ring_size_bytes, sample_interval_bytes),
{
    let mut w = ProtoWriter::new();
    w.write_nonzero(1, target_pid as u64);
    w.write_nonzero(2, ring_size_bytes);
    w.write_nonzero(3, sample_interval_bytes);
    assert(w@ =~= heap_config(target_pid, ring_size_bytes, sample_interval_bytes));
    w.into_bytes()
}

/// Decodes `(target_pid, ring_size_bytes, sample_interval_bytes)`, 0 for absent
/// fields.
pub fn heap_decode(bytes: &[u8]) -> (r: (u32, u64, u64))
    ensures
        r.0 == config_value(bytes@, 1) % 0x1_0000_0000,
        r.1 == config_value(bytes@, 2),
        r.2 == config_value(bytes@, 3),
{
    let vs = each_varint_field(bytes);
    (low_u32(last_of(&vs, 1)), last_of(&vs, 2), last_of(&vs, 3))
}

// ---- sismo.macos_sched: kernel_buffer_events = 1, target_pid = 2,
// ---- offcpu_wait_threshold_us = 3 ------------------------------------------

/// A sched config; a field that is 0 is left out. The buffer size is written as
/// its 64 bit sign extension.
pub open spec fn sched_config(kernel_buffer_events: i32, target_pid: u32, threshold_us: u32) -> Seq<
    u8,
> {
    wire::nonzero_field(1, wire::int64_bits(kernel_buffer_events as i64)) + wire::nonzero_field(
        2,
        target_pid as u64,
    ) + wire::nonzero_field(3, threshold_us as u64)
}

/// The u64 with the bits of the sign extension of `v`.
pub fn sign_extended(v: i32) -> (r: u64)
    ensures
        r == wire::int64_bits(v as i64),
{
    if v >= 0 {
        v as u64
    } else {
        ((v as i128) + 0x1_0000_0000_0000_0000) as u64
    }
}

pub fn sched_encode(
    kernel_buffer_events: i32,
    target_pid: u32,
    offcpu_wait_threshold_us: u32,
) -> (r: Vec<u8>)
    ensures
        r@ == sched_config(kernel_buffer_events, target_pid, offcpu_wait_threshold_us),
{
    let mut w = ProtoWriter::new();
    w.write_nonzero(1, sign_extended(kernel_buffer_events));
    w.write_nonzero(2, target_pid as u64);
    w.write_nonzero(3, offcpu_wait_threshold_us as u64);
    assert(w@ =~= sched_config(kernel_buffer_events, target_pid, offcpu_wait_threshold_us));
    w.into_bytes()
}

/// Decodes `(kernel_buffer_events, target_pid, offcpu_wait_threshold_us)`, 0 for
/// absent fields.
pub fn sched_decode(bytes: &[u8]) -> (r: (i32, u32, u32))
    ensures
        r.0 == bytes::bits_to_i32((config_value(bytes@, 1) % 0x1_0000_0000) as int),
        r.1 == config_value(bytes@, 2) % 0x1_0000_0000,
        r.2 == config_value(bytes@, 3) % 0x1_0000_0000,
{
    let vs = each_varint_field(bytes);
    (
        u32_as_i32(low_u32(last_of(&vs, 1))),
        low_u32(last_of(&vs, 2)),
        low_u32(last_of(&vs, 3)),
    )
}

// ---- decoding undoes encoding ----------------------------------------------

/// The fields of up to three varints that are left out where they are 0.
proof fn lemma_three_values(a: u64, b: u64, c: u64)
    ensures
        ({
            let s = wire::nonzero_field(1, a) + wire::nonzero_field(2, b) + wire::nonzero_field(
                3,
                c,
            );
            &&& config_value(s, 1) == a
            &&& config_value(s, 2) == b
            &&& config_value(s, 3) == c
        }),
{
    let sc = wire::nonzero_field(3, c);
    let sb = wire::nonzero_field(2, b) + sc;
    let sa = wire::nonzero_field(1, a) + sb;
    let none = Seq::<u8>::empty();
    assert(wire::nonzero_field(1, a) + wire::nonzero_field(2, b) + wire::nonzero_field(3, c)
        =~= sa);
    wire::lemma_fields_empty();
    let fc = wire::fields(sc);
    if c != 0 {
        wire::lemma_fields_varint(3, c, none);
        assert(sc + none =~= sc);
        assert(fc =~= seq![(3u32, FieldValue::Varint(c))]);
        assert(fc.drop_first() =~= Seq::empty());
    }
    assert(varint_fields(Seq::empty()) =~= Seq::empty());
    let vc = varint_fields(fc);
    if c != 0 {
        assert(vc =~= seq![(3u32, c)]);
    } else {
        assert(vc =~= Seq::empty());
    }
    let fb = wire::fields(sb);
    if b != 0 {
        wire::lemma_fields_varint(2, b, sc);
        assert(fb.drop_first() =~= fc);
    } else {
        assert(sb =~= sc);
    }
    let vb = varint_fields(fb);
    if b != 0 {
        assert(vb =~= seq![(2u32, b)] + vc);
    } else {
        assert(vb =~= vc);
    }
    let fa = wire::fields(sa);
    if a != 0 {
        wire::lemma_fields_varint(1, a, sb);
        assert(fa.drop_first() =~= fb);
    } else {
        assert(sa =~= sb);
    }
    let va = varint_fields(fa);
    if a != 0 {
        assert(va =~= seq![(1u32, a)] + vb);
    } else {
        assert(va =~= vb);
    }
    reveal_with_fuel(last_value, 4);
    assert(va.len() <= 3);
}

/// Decoding a CPU-samples config gives back what was encoded.
pub proof fn lemma_cpu_round_trip(target_pid: u32, interval_us: u32)
    ensures
        config_value(cpu_config(target_pid, interval_us), 1) % 0x1_0000_0000 == target_pid,
        config_value(cpu_config(target_pid, interval_us), 2) % 0x1_0000_0000 == interval_us,
{
    lemma_three_values(target_pid as u64, interval_us as u64, 0);
    assert(cpu_config(target_pid, interval_us) + wire::nonzero_field(3, 0) =~= cpu_config(
        target_pid,
        interval_us,
    ));
}

/// Decoding a heap config gives back what was encoded.
pub proof fn lemma_heap_round_trip(target_pid: u32, ring_size: u64, interval: u64)
    ensures
        config_value(heap_config(target_pid, ring_size, interval), 1) % 0x1_0000_0000 == target_pid,
        config_value(heap_config(target_pid, ring_size, interval), 2) == ring_size,
        config_value(heap_config(target_pid, ring_size, interval), 3) == interval,
{
    lemma_three_values(target_pid as u64, ring_size, interval);
}

/// Decoding a sched config gives back what was encoded, negative buffer sizes
/// too.
pub proof fn lemma_sched_round_trip(kernel_buffer_events: i32, target_pid: u32, threshold_us: u32)
    ensures
        ({
            let s = sched_config(kernel_buffer_events, target_pid, threshold_us);
            &&& bytes::bits_to_i32((config_value(s, 1) % 0x1_0000_0000) as int)
                == kernel_buffer_events
            &&& config_value(s, 2) % 0x1_0000_0000 == target_pid
            &&& config_value(s, 3) % 0x1_0000_0000 == threshold_us
        }),
{
    lemma_three_values(
        wire::int64_bits(kernel_buffer_events as i64),
        target_pid as u64,
        threshold_us as u64,
    );
}

} // verus!
