//! The protobuf decoder: walks the fields of a message.

use crate::proto::wire;
use crate::proto::wire::{MAX_VARINT_LEN, FieldValue};
use vstd::prelude::*;
use vstd::slice::slice_subrange;

verus! {

/// The value of a single protobuf field, borrowed from the source buffer.
pub enum WireValue<'a> {
    Varint(u64),
    Fixed64([u8; 8]),
    Len(&'a [u8]),
    Fixed32([u8; 4]),
}

impl<'a> View for WireValue<'a> {
    type V = FieldValue;

    open spec fn view(&self) -> FieldValue {
        match self {
            WireValue::Varint(v) => FieldValue::Varint(*v),
            WireValue::Fixed64(b) => FieldValue::Fixed64(b@),
            WireValue::Len(b) => FieldValue::Len(b@),
            WireValue::Fixed32(b) => FieldValue::Fixed32(b@),
        }
    }
}

/// Walks the fields of a protobuf message. Malformed or truncated input ends the
/// walk. Nest by calling [`ProtoReader::new`] on a `Len` payload.
pub struct ProtoReader<'a> {
    pub buf: &'a [u8],
    pub pos: usize,
}

impl<'a> ProtoReader<'a> {
    /// The position lies within the buffer.
    pub open spec fn wf(&self) -> bool {
        self.pos <= self.buf@.len()
    }

    /// What has not been read yet.
    pub open spec fn rest(&self) -> Seq<u8> {
        self.buf@.skip(self.pos as int)
    }

    pub fn new(buf: &'a [u8]) -> (r: Self)
        ensures
            r.wf(),
            r.buf@ == buf@,
            r.pos == 0,
            r.rest() == buf@,
    {
        assert(buf@.skip(0) =~= buf@);
        ProtoReader { buf, pos: 0 }
    }

    /// Read a varint. Where there is none, the bytes that were looked at are
    /// passed over: ten, or all that are left.
    pub fn read_varint(&mut self) -> (r: Option<u64>)
        requires
            old(self).wf(),
        ensures
            final(self).wf(),
            final(self).buf == old(self).buf,
            match wire::read_varint(old(self).rest()) {
                Some((v, n)) => r == Some(v) && final(self).pos == old(self).pos + n,
                None => r is None && final(self).pos == old(self).pos + wire::varint_passed_over(
                    old(self).rest(),
                ),
            },
    {
        let ghost start = self.rest();
        let mut value: u128 = 0;
        let mut unit: u128 = 1;
        let mut i: usize = 0;
        proof {
            vstd::arithmetic::power::lemma_pow0(128);
        }
        while i < MAX_VARINT_LEN && self.pos < self.buf.len()
            invariant
                i <= MAX_VARINT_LEN,
                self.wf(),
                self.buf == old(self).buf,
                start == old(self).rest(),
                self.pos == old(self).pos + i,
                unit == vstd::arithmetic::power::pow(128, i as nat),
                unit <= 0x40_0000_0000_0000_0000,
                value < unit,
                match wire::read_groups(self.rest(), (MAX_VARINT_LEN - i) as nat) {
                    Some((v, n)) => wire::read_groups(start, MAX_VARINT_LEN as nat) == Some(
                        ((value + unit * v) as nat, n + i as nat),
                    ),
                    None => wire::read_groups(start, MAX_VARINT_LEN as nat) is None,
                },
            decreases MAX_VARINT_LEN - i,
        {
            let ghost here = self.rest();
            let b: u8 = self.buf[self.pos];
            assert(b == here[0]);
            assert(here.drop_first() =~= self.buf@.skip(self.pos + 1));
            self.pos = self.pos + 1;
            proof {
                wire::lemma_read_groups_bounds(here, (MAX_VARINT_LEN - i) as nat);
                lemma_unit(i as nat);
            }
            if b < 128 {
                assert(unit * b < unit * 128) by (nonlinear_arith)
                    requires
                        b < 128,
                        unit >= 1,
                ;
                let sum: u128 = value + unit * (b as u128);
                assert(wire::read_groups(start, MAX_VARINT_LEN as nat) == Some((sum as nat, (i + 1) as nat)));
                if sum > u64::MAX as u128 {
                    assert(i == 9 && start.len() >= MAX_VARINT_LEN);
                    return None;
                }
                return Some(sum as u64);
            }
            let low: u128 = (b - 128) as u128;
            proof {
                assert(0 <= unit * low <= unit * 127) by (nonlinear_arith)
                    requires
                        0 <= low <= 127,
                        unit >= 1,
                ;
                match wire::read_groups(here.drop_first(), (MAX_VARINT_LEN - i - 1) as nat) {
                    Some((v, n)) => {
                        assert(value + unit * (low + 128 * v) == (value + unit * low) + (unit * 128)
                            * v) by (nonlinear_arith);
                    },
                    None => {},
                }
            }
            value = value + unit * low;
            if i + 1 < MAX_VARINT_LEN {
                unit = unit * 128;
            } else {
                return None;
            }
            i += 1;
        }
        None
    }

    /// The next `n` bytes, or `None` (and nothing read) where fewer are left.
    pub fn take(&mut self, n: usize) -> (r: Option<&'a [u8]>)
        requires
            old(self).wf(),
        ensures
            final(self).wf(),
            final(self).buf == old(self).buf,
            if n <= old(self).rest().len() {
                &&& r matches Some(s) && s@ == old(self).rest().take(n as int)
                &&& final(self).pos == old(self).pos + n
            } else {
                &&& r is None
                &&& final(self).pos == old(self).pos
            },
    {
        if n > self.buf.len() - self.pos {
            return None;
        }
        let end: usize = self.pos + n;
        let s = slice_subrange(self.buf, self.pos, end);
        assert(s@ =~= self.rest().take(n as int));
        self.pos = end;
        Some(s)
    }

    /// The next field and its number. `None` at the end, and where what is left
    /// does not start with a whole field of a known wire type.
    pub fn next(&mut self) -> (r: Option<(u32, WireValue<'a>)>)
        requires
            old(self).wf(),
        ensures
            final(self).wf(),
            final(self).buf == old(self).buf,
            match wire::read_field(old(self).rest()) {
                Some(((f, v), n)) => {
                    &&& r matches Some((rf, rv)) && rf == f && rv@ == v
                    &&& final(self).pos == old(self).pos + n
                },
                None => r is None && final(self).pos == old(self).pos + wire::field_passed_over(
                    old(self).rest(),
                ),
            },
            match r {
                Some((f, v)) => {
                    &&& wire::fields(old(self).rest()) == seq![(f, v@)] + wire::fields(
                        final(self).rest(),
                    )
                    &&& final(self).pos > old(self).pos
                },
                None => wire::fields(old(self).rest()).len() == 0,
            },
    {
        let ghost start = self.rest();
        proof {
            wire::lemma_read_field_bounds(start);
            match wire::read_field(start) {
                Some((f, n)) => {
                    assert(start.skip(n as int) =~= self.buf@.skip(self.pos + n));
                },
                None => {},
            }
        }
        let t: u64 = match self.read_varint() {
            Some(t) => t,
            None => {
                return None;
            },
        };
        let ghost tag_len = wire::read_varint(start).unwrap().1;
        proof {
            wire::lemma_read_groups_bounds(start, MAX_VARINT_LEN as nat);
        }
        let ghost body = self.rest();
        assert(body =~= start.skip(tag_len as int));
        let field: u32 = (t / 8 % 0x1_0000_0000) as u32;
        let wire: u64 = t % 8;
        proof {
            wire::lemma_read_groups_bounds(body, MAX_VARINT_LEN as nat);
        }
        if wire == 0 {
            match self.read_varint() {
                Some(v) => Some((field, WireValue::Varint(v))),
                None => None,
            }
        } else if wire == 1 {
            match self.take(8) {
                Some(s) => {
                    let b: [u8; 8] = [s[0], s[1], s[2], s[3], s[4], s[5], s[6], s[7]];
                    assert(b@ =~= s@);
                    Some((field, WireValue::Fixed64(b)))
                },
                None => None,
            }
        } else if wire == 2 {
            let len: u64 = match self.read_varint() {
                Some(l) => l,
                None => {
                    return None;
                },
            };
            let ghost n = wire::read_varint(body).unwrap().1;
            assert(self.rest() =~= body.skip(n as int));
            if len > (self.buf.len() - self.pos) as u64 {
                return None;
            }
            match self.take(len as usize) {
                Some(s) => {
                    assert(s@ =~= body.subrange(n as int, n + len));
                    Some((field, WireValue::Len(s)))
                },
                None => None,
            }
        } else if wire == 5 {
            match self.take(4) {
                Some(s) => {
                    let b: [u8; 4] = [s[0], s[1], s[2], s[3]];
                    assert(b@ =~= s@);
                    Some((field, WireValue::Fixed32(b)))
                },
                None => None,
            }
        } else {
            None
        }
    }
}

/// All fields of a message, up to the first that is malformed or cut off.
pub fn all_fields<'a>(buf: &'a [u8]) -> (r: Vec<(u32, WireValue<'a>)>)
    ensures
        r@.map_values(|f: (u32, WireValue<'a>)| (f.0, f.1@)) == wire::fields(buf@),
{
    let mut out: Vec<(u32, WireValue<'a>)> = Vec::new();
    let mut reader = ProtoReader::new(buf);
    let ghost shown = |f: (u32, WireValue<'a>)| (f.0, f.1@);
    loop
        invariant_except_break
            reader.wf(),
            reader.buf@ == buf@,
            out@.map_values(shown) + wire::fields(reader.rest()) == wire::fields(buf@),
        invariant
            shown == (|f: (u32, WireValue<'a>)| (f.0, f.1@)),
        ensures
            out@.map_values(shown) == wire::fields(buf@),
        decreases reader.rest().len(),
    {
        let ghost before = out@;
        let ghost left = reader.rest();
        match reader.next() {
            Some(f) => {
                out.push(f);
                assert(out@.map_values(shown) =~= before.map_values(shown).push((f.0, f.1@)));
                assert(out@.map_values(shown) + wire::fields(reader.rest()) =~= before.map_values(shown)
                    + wire::fields(left));
            },
            None => {
                assert(out@.map_values(shown) + wire::fields(left) =~= out@.map_values(shown));
                break;
            },
        }
    }
    out
}

proof fn lemma_unit(i: nat)
    requires
        i < 10,
    ensures
        1 <= vstd::arithmetic::power::pow(128, i) <= 0x8000_0000_0000_0000,
        i < 9 ==> vstd::arithmetic::power::pow(128, i) <= 0x100_0000_0000_0000,
        vstd::arithmetic::power::pow(128, i + 1) == vstd::arithmetic::power::pow(128, i) * 128,
{
    reveal_with_fuel(vstd::arithmetic::power::pow, 11);
}

} // verus!
