//! The protobuf encoder: appends fields to a growing buffer.

use crate::bytes::append_bytes;
use crate::proto::wire;
use crate::proto::wire::{WIRE_VARINT, WIRE_LEN, RESERVED_LEN};
use vstd::prelude::*;

verus! {

/// Length-delimited protobuf encoder over a growable byte buffer. Nested
/// messages are either encoded into a writer of their own and then written with
/// [`ProtoWriter::write_message`], or built in place between
/// [`ProtoWriter::begin_message`] and [`ProtoWriter::end_message`].
pub struct ProtoWriter {
    pub buf: Vec<u8>,
}

impl View for ProtoWriter {
    type V = Seq<u8>;

    open spec fn view(&self) -> Seq<u8> {
        self.buf@
    }
}

impl ProtoWriter {
    pub fn new() -> (w: Self)
        ensures
            w@ == Seq::<u8>::empty(),
    {
        ProtoWriter { buf: Vec::new() }
    }

    /// An empty writer with room for `capacity` bytes.
    pub fn with_capacity(capacity: usize) -> (w: Self)
        ensures
            w@ == Seq::<u8>::empty(),
    {
        ProtoWriter { buf: Vec::with_capacity(capacity) }
    }

    /// What has been written.
    pub fn bytes(&self) -> (b: &[u8])
        ensures
            b@ == self@,
    {
        self.buf.as_slice()
    }

    /// What has been written, as an owned buffer.
    pub fn into_bytes(self) -> (b: Vec<u8>)
        ensures
            b@ == self@,
    {
        self.buf
    }

    /// Forget what has been written.
    pub fn clear(&mut self)
        ensures
            final(self)@ == Seq::<u8>::empty(),
    {
        self.buf.clear();
    }

    pub fn write_varint(&mut self, value: u64)
        ensures
            final(self)@ == old(self)@ + wire::varint(value as nat),
    {
        let mut v: u64 = value;
        while v >= 0x80
            invariant
                self.buf@ + wire::varint(v as nat) == old(self)@ + wire::varint(value as nat),
            decreases v,
        {
            let ghost before = self.buf@;
            let low: u8 = (v % 128 + 128) as u8;
            self.buf.push(low);
            assert(before + wire::varint(v as nat) =~= self.buf@ + wire::varint(v as nat / 128));
            v = v / 128;
        }
        let last: u8 = v as u8;
        let ghost before = self.buf@;
        self.buf.push(last);
        assert(self.buf@ =~= before + wire::varint(v as nat));
    }

    pub fn write_tag(&mut self, field: u32, wire: u8)
        ensures
            final(self)@ == old(self)@ + wire::tag(field, wire),
    {
        self.write_varint(field as u64 * 8 + wire as u64);
    }

    pub fn write_uint64(&mut self, field: u32, value: u64)
        ensures
            final(self)@ == old(self)@ + wire::varint_field(field, value),
    {
        self.write_tag(field, WIRE_VARINT);
        self.write_varint(value);
        assert(self@ =~= old(self)@ + wire::varint_field(field, value));
    }

    pub fn write_uint32(&mut self, field: u32, value: u32)
        ensures
            final(self)@ == old(self)@ + wire::varint_field(field, value as u64),
    {
        self.write_uint64(field, value as u64);
    }

    /// proto `int32`, written as the u32 of the same bits: -1 takes five bytes,
    /// not the ten of the 64 bit sign extension.
    pub fn write_int32(&mut self, field: u32, value: i32)
        ensures
            final(self)@ == old(self)@ + wire::varint_field(field, wire::int32_bits(value)),
    {
        self.write_uint32(field, crate::bytes::i32_as_u32(value));
    }

    /// proto `int64`, written as the u64 of the same bits.
    pub fn write_int64(&mut self, field: u32, value: i64)
        ensures
            final(self)@ == old(self)@ + wire::varint_field(field, wire::int64_bits(value)),
    {
        let bits: u64 = if value >= 0 {
            value as u64
        } else {
            ((value as i128) + 0x1_0000_0000_0000_0000) as u64
        };
        self.write_uint64(field, bits);
    }

    pub fn write_string(&mut self, field: u32, bytes: &[u8])
        ensures
            final(self)@ == old(self)@ + wire::len_field(field, bytes@),
    {
        self.write_tag(field, WIRE_LEN);
        self.write_varint(bytes.len() as u64);
        append_bytes(&mut self.buf, bytes);
        assert(self@ =~= old(self)@ + wire::len_field(field, bytes@));
    }

    pub fn write_message(&mut self, field: u32, msg: &[u8])
        ensures
            final(self)@ == old(self)@ + wire::len_field(field, msg@),
    {
        self.write_string(field, msg);
    }

    /// A varint field that is left out where `value` is 0.
    pub fn write_nonzero(&mut self, field: u32, value: u64)
        ensures
            final(self)@ == old(self)@ + wire::nonzero_field(field, value),
    {
        if value != 0 {
            self.write_uint64(field, value);
        } else {
            assert(self@ =~= old(self)@ + wire::nonzero_field(field, value));
        }
    }

    /// The value 1 where `set`, nothing otherwise.
    pub fn write_flag(&mut self, field: u32, set: bool)
        ensures
            final(self)@ == old(self)@ + wire::flag_field(field, set),
    {
        if set {
            self.write_uint32(field, 1);
        } else {
            assert(self@ =~= old(self)@ + wire::flag_field(field, set));
        }
    }

    /// A length-delimited field that is left out where `bytes` is empty.
    pub fn write_nonempty(&mut self, field: u32, bytes: &[u8])
        ensures
            final(self)@ == old(self)@ + wire::nonempty_field(field, bytes@),
    {
        if bytes.len() != 0 {
            self.write_string(field, bytes);
        } else {
            assert(self@ =~= old(self)@ + wire::nonempty_field(field, bytes@));
        }
    }

    /// Write a length-delimited sub-message whose body `f` writes in place.
    pub fn message<F: FnOnce(&mut ProtoWriter)>(&mut self, field: u32, f: F)
        requires
            forall|w: &mut ProtoWriter| call_requires(f, (w,)),
            forall|w: &mut ProtoWriter|
                call_ensures(f, (w,), ()) ==> w@.is_prefix_of((*final(w))@),
        ensures
            exists|w: &mut ProtoWriter|
                {
                    &&& call_ensures(f, (w,), ())
                    &&& w@ == old(self)@ + wire::tag(field, WIRE_LEN) + seq![0u8, 0, 0, 0, 0]
                    &&& final(self)@ == old(self)@ + wire::sub_message(
                        field,
                        (*final(w))@.skip(w@.len() as int),
                    )
                },
    {
        let marker: usize = self.begin_message(field);
        let ghost open = self@;
        f(self);
        proof {
            let body = self@.skip(open.len() as int);
            assert(self@ =~= open + body);
            lemma_closed_message(old(self)@, field, body);
        }
        self.end_message(marker);
    }

    /// Open a length-delimited sub-message: write the tag and reserve a length
    /// slot of [`RESERVED_LEN`] bytes. The body is then written straight into
    /// this buffer, and [`ProtoWriter::end_message`] fills the slot in, with
    /// nothing to move. Returns the marker to pass to it.
    pub fn begin_message(&mut self, field: u32) -> (marker: usize)
        ensures
            marker == old(self)@.len() + wire::tag(field, WIRE_LEN).len(),
            final(self)@ == old(self)@ + wire::tag(field, WIRE_LEN) + seq![0u8, 0, 0, 0, 0],
    {
        self.write_tag(field, WIRE_LEN);
        let marker: usize = self.buf.len();
        let ghost before = self.buf@;
        let mut i: usize = 0;
        while i < RESERVED_LEN
            invariant
                i <= RESERVED_LEN,
                self.buf@ == before + Seq::new(i as nat, |j: int| 0u8),
            decreases RESERVED_LEN - i,
        {
            self.buf.push(0);
            i += 1;
            assert(self.buf@ =~= before + Seq::new(i as nat, |j: int| 0u8));
        }
        assert(self.buf@ =~= before + seq![0u8, 0, 0, 0, 0]);
        marker
    }

    /// Close the sub-message that `marker` opened: fill its length slot with the
    /// length of what was written since. The slot holds 35 bits; of a longer
    /// length it takes the low 35.
    pub fn end_message(&mut self, marker: usize)
        requires
            marker + RESERVED_LEN <= old(self)@.len(),
        ensures
            final(self)@ == old(self)@.take(marker as int) + wire::padded_len(
                (old(self)@.len() - marker - RESERVED_LEN) as nat,
            ) + old(self)@.skip(marker + RESERVED_LEN),
    {
        let len: u64 = (self.buf.len() - marker - RESERVED_LEN) as u64;
        self.buf[marker] = (len % 128 + 128) as u8;
        self.buf[marker + 1] = (len / 0x80 % 128 + 128) as u8;
        self.buf[marker + 2] = (len / 0x4000 % 128 + 128) as u8;
        self.buf[marker + 3] = (len / 0x20_0000 % 128 + 128) as u8;
        self.buf[marker + 4] = (len / 0x1000_0000 % 128) as u8;
        assert(self@ =~= old(self)@.take(marker as int) + wire::padded_len(len as nat) + old(self)@.skip(
            marker + RESERVED_LEN,
        ));
    }
}

impl Default for ProtoWriter {
    fn default() -> (w: Self)
        ensures
            w@ == Seq::<u8>::empty(),
    {
        ProtoWriter::new()
    }
}

/// What a sub-message leaves behind: opened after `before`, filled with `body`
/// and closed, it is the field [`sub_message`].
pub proof fn lemma_closed_message(before: Seq<u8>, field: u32, body: Seq<u8>)
    ensures
        ({
            let open = before + wire::tag(field, WIRE_LEN) + seq![0u8, 0, 0, 0, 0] + body;
            let marker = (before.len() + wire::tag(field, WIRE_LEN).len()) as int;
            &&& open.len() - marker - RESERVED_LEN == body.len()
            &&& open.take(marker) + wire::padded_len(body.len()) + open.skip(marker + RESERVED_LEN)
                == before + wire::sub_message(field, body)
        }),
{
    let open = before + wire::tag(field, WIRE_LEN) + seq![0u8, 0, 0, 0, 0] + body;
    let marker = (before.len() + wire::tag(field, WIRE_LEN).len()) as int;
    assert(open.take(marker) =~= before + wire::tag(field, WIRE_LEN));
    assert(open.skip(marker + RESERVED_LEN) =~= body);
    assert(before + wire::tag(field, WIRE_LEN) + wire::padded_len(body.len()) + body =~= before + wire::sub_message(
        field,
        body,
    ));
}

} // verus!
