//! The protobuf wire format over byte sequences.
//!
//! Encoding is given by [`varint`], [`varint_field`], [`len_field`] and
//! [`sub_message`]; decoding by [`read_varint`], [`read_field`] and [`fields`].
//! The proof functions at the end say that decoding undoes encoding.

use vstd::prelude::*;

verus! {

/// Wire type of a varint field.
pub const WIRE_VARINT: u8 = 0;

/// Wire type of an eight byte field.
pub const WIRE_FIXED64: u8 = 1;

/// Wire type of a length-delimited field.
pub const WIRE_LEN: u8 = 2;

/// Wire type of a four byte field.
pub const WIRE_FIXED32: u8 = 5;

/// Bytes that a varint of 64 bits may take.
pub const MAX_VARINT_LEN: usize = 10;

/// Width of the length slot that `begin_message` reserves. Five groups hold 35
/// bits.
pub const RESERVED_LEN: usize = 5;

// ---- encoding --------------------------------------------------------------

/// Base-128 varint: seven bits a byte, low group first, the top bit of a byte
/// set where another one follows.
pub open spec fn varint(v: nat) -> Seq<u8>
    decreases v,
{
    if v < 128 {
        seq![v as u8]
    } else {
        seq![(v % 128 + 128) as u8] + varint(v / 128)
    }
}

/// A field's tag.
pub open spec fn tag(field: u32, wire: u8) -> Seq<u8> {
    varint((field * 8 + wire) as nat)
}

/// A varint field.
pub open spec fn varint_field(field: u32, value: u64) -> Seq<u8> {
    tag(field, WIRE_VARINT) + varint(value as nat)
}

/// A varint field that is left out where its value is 0.
pub open spec fn nonzero_field(field: u32, value: u64) -> Seq<u8> {
    if value == 0 {
        Seq::empty()
    } else {
        varint_field(field, value)
    }
}

/// A flag: the value 1 where it is set, nothing where it is not.
pub open spec fn flag_field(field: u32, set: bool) -> Seq<u8> {
    if set {
        varint_field(field, 1)
    } else {
        Seq::empty()
    }
}

/// A length-delimited field with the shortest length prefix.
pub open spec fn len_field(field: u32, payload: Seq<u8>) -> Seq<u8> {
    tag(field, WIRE_LEN) + varint(payload.len()) + payload
}

/// A length-delimited field that is left out where its payload is empty.
pub open spec fn nonempty_field(field: u32, payload: Seq<u8>) -> Seq<u8> {
    if payload.len() == 0 {
        Seq::empty()
    } else {
        len_field(field, payload)
    }
}

/// A length in exactly [`RESERVED_LEN`] groups: the low 35 bits of `n`, as a
/// varint that may be longer than it needs to be.
pub open spec fn padded_len(n: nat) -> Seq<u8> {
    seq![
        (n % 128 + 128) as u8,
        (n / 0x80 % 128 + 128) as u8,
        (n / 0x4000 % 128 + 128) as u8,
        (n / 0x20_0000 % 128 + 128) as u8,
        (n / 0x1000_0000 % 128) as u8,
    ]
}

/// A length-delimited field whose length prefix has a fixed width.
pub open spec fn sub_message(field: u32, body: Seq<u8>) -> Seq<u8> {
    tag(field, WIRE_LEN) + padded_len(body.len()) + body
}

/// The u32 that an i32 has the bits of.
pub open spec fn int32_bits(v: i32) -> u64 {
    if v >= 0 {
        v as u64
    } else {
        (v + 0x1_0000_0000) as u64
    }
}

/// The u64 that an i64 has the bits of.
pub open spec fn int64_bits(v: i64) -> u64 {
    if v >= 0 {
        v as u64
    } else {
        (v + 0x1_0000_0000_0000_0000) as u64
    }
}

// ---- decoding --------------------------------------------------------------

/// The value of the varint that `s` starts with and the bytes that it takes.
/// `None` where no byte without a continuation bit comes among the first
/// `limit`.
pub open spec fn read_groups(s: Seq<u8>, limit: nat) -> Option<(nat, nat)>
    decreases limit,
{
    if limit == 0 || s.len() == 0 {
        None
    } else if s[0] < 128 {
        Some((s[0] as nat, 1))
    } else {
        match read_groups(s.drop_first(), (limit - 1) as nat) {
            Some((v, n)) => Some(((s[0] - 128) as nat + 128 * v, n + 1)),
            None => None,
        }
    }
}

/// The 64 bit varint that `s` starts with, and the bytes that it takes. `None`
/// where it is cut off or does not fit in 64 bits.
pub open spec fn read_varint(s: Seq<u8>) -> Option<(u64, nat)> {
    match read_groups(s, MAX_VARINT_LEN as nat) {
        Some((v, n)) => if v <= u64::MAX {
            Some((v as u64, n))
        } else {
            None
        },
        None => None,
    }
}

/// The value of one field.
pub enum FieldValue {
    Varint(u64),
    Fixed64(Seq<u8>),
    Len(Seq<u8>),
    Fixed32(Seq<u8>),
}

/// The payload of the field whose tag has just been read, and the bytes that it
/// takes. `None` where it is cut off or its wire type is unknown.
pub open spec fn read_payload(wire: nat, s: Seq<u8>) -> Option<(FieldValue, nat)> {
    if wire == WIRE_VARINT {
        match read_varint(s) {
            Some((v, n)) => Some((FieldValue::Varint(v), n)),
            None => None,
        }
    } else if wire == WIRE_FIXED64 {
        if s.len() >= 8 {
            Some((FieldValue::Fixed64(s.take(8)), 8))
        } else {
            None
        }
    } else if wire == WIRE_LEN {
        match read_varint(s) {
            Some((len, n)) => if n + len <= s.len() {
                Some((FieldValue::Len(s.subrange(n as int, n + len)), n + len as nat))
            } else {
                None
            },
            None => None,
        }
    } else if wire == WIRE_FIXED32 {
        if s.len() >= 4 {
            Some((FieldValue::Fixed32(s.take(4)), 4))
        } else {
            None
        }
    } else {
        None
    }
}

/// The field that `s` starts with, its number cut to 32 bits, and the bytes that
/// it takes.
pub open spec fn read_field(s: Seq<u8>) -> Option<((u32, FieldValue), nat)> {
    match read_varint(s) {
        Some((t, n)) => match read_payload((t % 8) as nat, s.skip(n as int)) {
            Some((v, m)) => Some((((t / 8 % 0x1_0000_0000) as u32, v), n + m)),
            None => None,
        },
        None => None,
    }
}

/// The bytes that looking for a varint passes over where there is none.
pub open spec fn varint_passed_over(s: Seq<u8>) -> nat {
    if s.len() < MAX_VARINT_LEN {
        s.len()
    } else {
        MAX_VARINT_LEN as nat
    }
}

/// The bytes that looking for a field passes over where `s` does not start with
/// one: those of the parts that could be read.
pub open spec fn field_passed_over(s: Seq<u8>) -> nat {
    match read_varint(s) {
        Some((t, n)) => {
            let body = s.skip(n as int);
            if t % 8 == WIRE_VARINT {
                n + varint_passed_over(body)
            } else if t % 8 == WIRE_LEN {
                match read_varint(body) {
                    Some((len, m)) => n + m,
                    None => n + varint_passed_over(body),
                }
            } else {
                n
            }
        },
        None => varint_passed_over(s),
    }
}

/// All fields of a message, up to the first that is malformed or cut off.
pub open spec fn fields(s: Seq<u8>) -> Seq<(u32, FieldValue)>
    decreases s.len(),
{
    match read_field(s) {
        Some((f, n)) => if 0 < n <= s.len() {
            seq![f] + fields(s.skip(n as int))
        } else {
            Seq::empty()
        },
        None => Seq::empty(),
    }
}

// ---- what holds of both ----------------------------------------------------

/// What a varint reads takes at least one byte, no more than are there, and no
/// more than the limit.
pub proof fn lemma_read_groups_bounds(s: Seq<u8>, limit: nat)
    ensures
        read_groups(s, limit) matches Some((v, n)) ==> 0 < n <= s.len() && n <= limit,
    decreases limit,
{
    if limit != 0 && s.len() != 0 && s[0] >= 128 {
        lemma_read_groups_bounds(s.drop_first(), (limit - 1) as nat);
    }
}

/// A field takes at least two bytes, and no more than are there.
pub proof fn lemma_read_field_bounds(s: Seq<u8>)
    ensures
        read_field(s) matches Some((f, n)) ==> 2 <= n <= s.len(),
{
    lemma_read_groups_bounds(s, MAX_VARINT_LEN as nat);
    match read_varint(s) {
        Some((t, n)) => {
            lemma_read_groups_bounds(s.skip(n as int), MAX_VARINT_LEN as nat);
        },
        None => {},
    }
}

/// `g` groups hold every number below `128^g`.
pub proof fn lemma_varint_len(v: nat, bound: nat, g: nat)
    requires
        g >= 1,
        v < bound,
        bound == vstd::arithmetic::power::pow(128, g),
    ensures
        1 <= varint(v).len() <= g,
    decreases g,
{
    if v >= 128 {
        vstd::arithmetic::power::lemma_pow1(128);
        assert(g > 1);
        let less = vstd::arithmetic::power::pow(128, (g - 1) as nat);
        assert(bound == 128 * less) by {
            reveal(vstd::arithmetic::power::pow);
        }
        assert(v / 128 < less) by (nonlinear_arith)
            requires
                v < 128 * less,
        ;
        lemma_varint_len(v / 128, less as nat, (g - 1) as nat);
    }
}

/// A varint of 64 bits takes ten bytes at most.
pub proof fn lemma_varint64_len(v: u64)
    ensures
        1 <= varint(v as nat).len() <= MAX_VARINT_LEN,
{
    assert(vstd::arithmetic::power::pow(128, 10) == 0x40_0000_0000_0000_0000) by {
        reveal_with_fuel(vstd::arithmetic::power::pow, 11);
    }
    lemma_varint_len(v as nat, 0x40_0000_0000_0000_0000, 10);
}

/// Reading a varint gives back what was written, whatever follows it.
pub proof fn lemma_read_written_groups(v: nat, rest: Seq<u8>, limit: nat)
    requires
        varint(v).len() <= limit,
    ensures
        read_groups(varint(v) + rest, limit) == Some((v, varint(v).len())),
    decreases v,
{
    let s = varint(v) + rest;
    if v >= 128 {
        lemma_read_written_groups(v / 128, rest, (limit - 1) as nat);
        assert(s.drop_first() =~= varint(v / 128) + rest);
    }
}

/// Reading a varint gives back the 64 bit number that was written.
pub proof fn lemma_read_written_varint(v: u64, rest: Seq<u8>)
    ensures
        read_varint(varint(v as nat) + rest) == Some((v, varint(v as nat).len())),
{
    lemma_varint64_len(v);
    lemma_read_written_groups(v as nat, rest, MAX_VARINT_LEN as nat);
}

/// Five groups of seven bits make up a number of 35 bits.
#[verifier::spinoff_prover]
proof fn lemma_five_groups(n: nat)
    requires
        n < 0x8_0000_0000,
    ensures
        n % 128 + 128 * (n / 0x80 % 128 + 128 * (n / 0x4000 % 128 + 128 * (n / 0x20_0000 % 128 + 128
            * (n / 0x1000_0000 % 128)))) == n,
{
    let a = n / 0x80;
    let b = a / 128;
    let c = b / 128;
    let d = c / 128;
    assert(n / 0x4000 == b);
    assert(n / 0x20_0000 == c);
    assert(n / 0x1000_0000 == d);
    assert(d < 128);
    assert(c == c % 128 + 128 * d);
    assert(b == b % 128 + 128 * c);
    assert(a == a % 128 + 128 * b);
}

/// Reading a fixed-width length gives back the length, where it has 35 bits.
#[verifier::spinoff_prover]
pub proof fn lemma_read_padded_len(n: nat, rest: Seq<u8>)
    requires
        n < 0x8_0000_0000,
    ensures
        read_varint(padded_len(n) + rest) == Some((n as u64, RESERVED_LEN as nat)),
{
    let g0 = n % 128;
    let g1 = n / 0x80 % 128;
    let g2 = n / 0x4000 % 128;
    let g3 = n / 0x20_0000 % 128;
    let g4 = n / 0x1000_0000 % 128;
    lemma_five_groups(n);
    let s0 = padded_len(n) + rest;
    let s1 = s0.drop_first();
    let s2 = s1.drop_first();
    let s3 = s2.drop_first();
    let s4 = s3.drop_first();
    assert(s4[0] == g4);
    assert(s3[0] == g3 + 128);
    assert(s2[0] == g2 + 128);
    assert(s1[0] == g1 + 128);
    assert(s0[0] == g0 + 128);
    assert(read_groups(s4, 6) == Some((g4, 1nat)));
    let v3 = g3 + 128 * g4;
    assert(read_groups(s3, 7) == Some((v3, 2nat)));
    let v2 = g2 + 128 * v3;
    assert(read_groups(s2, 8) == Some((v2, 3nat)));
    let v1 = g1 + 128 * v2;
    assert(read_groups(s1, 9) == Some((v1, 4nat)));
    assert(read_groups(s0, 10) == Some((g0 + 128 * v1, 5nat)));
}

/// Reading the tag that was written gives the field number and the wire type.
pub proof fn lemma_read_tag(field: u32, wire: u8, rest: Seq<u8>)
    requires
        wire < 8,
    ensures
        read_varint(tag(field, wire) + rest) == Some(
            ((field * 8 + wire) as u64, tag(field, wire).len()),
        ),
        (field * 8 + wire) as u64 % 8 == wire,
        (field * 8 + wire) as u64 / 8 % 0x1_0000_0000 == field,
{
    lemma_read_written_varint((field * 8 + wire) as u64, rest);
}

/// Reading back a varint field: the first field of a message that starts with it
/// is that field, and the others are those of what follows.
pub proof fn lemma_fields_varint(field: u32, value: u64, rest: Seq<u8>)
    ensures
        fields(varint_field(field, value) + rest) == seq![(field, FieldValue::Varint(value))]
            + fields(rest),
{
    let t = tag(field, WIRE_VARINT);
    let v = varint(value as nat);
    let s = varint_field(field, value) + rest;
    assert(s =~= t + (v + rest));
    lemma_read_tag(field, WIRE_VARINT, v + rest);
    assert(s.skip(t.len() as int) =~= v + rest);
    lemma_read_written_varint(value, rest);
    assert(s.skip((t.len() + v.len()) as int) =~= rest);
    lemma_read_field_bounds(s);
}

/// Reading back a length-delimited field.
pub proof fn lemma_fields_len(field: u32, payload: Seq<u8>, rest: Seq<u8>)
    requires
        payload.len() <= u64::MAX,
    ensures
        fields(len_field(field, payload) + rest) == seq![(field, FieldValue::Len(payload))]
            + fields(rest),
{
    let t = tag(field, WIRE_LEN);
    let l = varint(payload.len());
    let s = len_field(field, payload) + rest;
    let after = l + (payload + rest);
    assert(s =~= t + after);
    lemma_read_tag(field, WIRE_LEN, after);
    assert(s.skip(t.len() as int) =~= after);
    lemma_read_written_varint(payload.len() as u64, payload + rest);
    assert(after.subrange(l.len() as int, (l.len() + payload.len()) as int) =~= payload);
    let n = t.len() + l.len() + payload.len();
    assert(read_payload(WIRE_LEN as nat, after) == Some(
        (FieldValue::Len(payload), l.len() + payload.len()),
    ));
    assert(read_field(s) == Some(((field, FieldValue::Len(payload)), n)));
    assert(s.skip(n as int) =~= rest);
    lemma_read_field_bounds(s);
}

/// Reading back a field with a fixed-width length prefix, where the length has
/// 35 bits.
pub proof fn lemma_fields_sub_message(field: u32, body: Seq<u8>, rest: Seq<u8>)
    requires
        body.len() < 0x8_0000_0000,
    ensures
        fields(sub_message(field, body) + rest) == seq![(field, FieldValue::Len(body))] + fields(
            rest,
        ),
{
    let t = tag(field, WIRE_LEN);
    let l = padded_len(body.len());
    let s = sub_message(field, body) + rest;
    let after = l + (body + rest);
    assert(s =~= t + after);
    lemma_read_tag(field, WIRE_LEN, after);
    assert(s.skip(t.len() as int) =~= after);
    lemma_read_padded_len(body.len(), body + rest);
    assert(after.subrange(l.len() as int, (l.len() + body.len()) as int) =~= body);
    let n = t.len() + l.len() + body.len();
    assert(read_payload(WIRE_LEN as nat, after) == Some(
        (FieldValue::Len(body), l.len() + body.len()),
    ));
    assert(read_field(s) == Some(((field, FieldValue::Len(body)), n)));
    assert(s.skip(n as int) =~= rest);
    lemma_read_field_bounds(s);
}

// ---- messages read back by field number ------------------------------------

/// The values that fields of a number have, in the order they come.
pub open spec fn values(fs: Seq<(u32, FieldValue)>, number: u32) -> Seq<FieldValue>
    decreases fs.len(),
{
    if fs.len() == 0 {
        Seq::empty()
    } else {
        let front = values(fs.drop_last(), number);
        if fs.last().0 == number {
            front.push(fs.last().1)
        } else {
            front
        }
    }
}

/// What a reader of a message finds under a field number.
pub open spec fn under(message: Seq<u8>, number: u32) -> Seq<FieldValue> {
    values(fields(message), number)
}

/// A number under a field, once.
pub open spec fn one(value: u64) -> Seq<FieldValue> {
    seq![FieldValue::Varint(value)]
}

/// A number under a field, where it is not 0; 0 is left out.
pub open spec fn one_unless_zero(value: u64) -> Seq<FieldValue> {
    if value == 0 {
        Seq::empty()
    } else {
        one(value)
    }
}

/// Bytes under a field, once.
pub open spec fn one_text(bytes: Seq<u8>) -> Seq<FieldValue> {
    seq![FieldValue::Len(bytes)]
}

/// Whether bytes end where a field ends, so that what follows them is read as if it
/// stood alone.
#[verifier::opaque]
pub open spec fn complete(s: Seq<u8>) -> bool {
    forall|rest: Seq<u8>| #[trigger] fields(s + rest) == fields(s) + fields(rest)
}

proof fn lemma_values_one(f: (u32, FieldValue))
    ensures
        forall|n: u32| #[trigger]
            values(seq![f], n) == (if n == f.0 {
                seq![f.1]
            } else {
                Seq::empty()
            }),
{
    assert forall|n: u32| #[trigger]
        values(seq![f], n) == (if n == f.0 {
            seq![f.1]
        } else {
            Seq::empty()
        }) by {
        assert(seq![f].drop_last() =~= Seq::empty());
        assert(values(Seq::<(u32, FieldValue)>::empty(), n) =~= Seq::empty());
        assert(values(seq![f], n) =~= if n == f.0 {
            seq![f.1]
        } else {
            Seq::empty()
        });
    }
}

proof fn lemma_values_join(a: Seq<(u32, FieldValue)>, b: Seq<(u32, FieldValue)>, n: u32)
    ensures
        values(a + b, n) == values(a, n) + values(b, n),
    decreases b.len(),
{
    if b.len() == 0 {
        assert(a + b =~= a);
        assert(values(a, n) + values(b, n) =~= values(a, n));
    } else {
        lemma_values_join(a, b.drop_last(), n);
        assert((a + b).drop_last() =~= a + b.drop_last());
        assert(values(a + b, n) =~= values(a, n) + values(b, n));
    }
}

/// A message in two parts holds what its parts hold.
pub proof fn lemma_join(a: Seq<u8>, b: Seq<u8>)
    requires
        complete(a),
        complete(b),
    ensures
        complete(a + b),
        forall|n: u32| #[trigger] under(a + b, n) == under(a, n) + under(b, n),
{
    reveal(complete);
    assert(fields(a + b) == fields(a) + fields(b));
    assert forall|rest: Seq<u8>| #[trigger]
        fields((a + b) + rest) == fields(a + b) + fields(rest) by {
        assert((a + b) + rest =~= a + (b + rest));
        assert(fields(a + (b + rest)) == fields(a) + fields(b + rest));
        assert(fields(a) + (fields(b) + fields(rest)) =~= (fields(a) + fields(b)) + fields(rest));
    }
    assert forall|n: u32| #[trigger] under(a + b, n) == under(a, n) + under(b, n) by {
        lemma_values_join(fields(a), fields(b), n);
    }
}

pub proof fn lemma_under_empty()
    ensures
        complete(Seq::empty()),
        forall|n: u32| #[trigger] under(Seq::<u8>::empty(), n) == Seq::<FieldValue>::empty(),
{
    reveal(complete);
    assert forall|rest: Seq<u8>| #[trigger]
        fields(Seq::<u8>::empty() + rest) == fields(Seq::empty()) + fields(rest) by {
        assert(Seq::<u8>::empty() + rest =~= rest);
        assert(fields(Seq::empty()) + fields(rest) =~= fields(rest));
    }
    assert forall|n: u32| #[trigger]
        under(Seq::<u8>::empty(), n) == Seq::<FieldValue>::empty() by {
        assert(under(Seq::<u8>::empty(), n) =~= Seq::<FieldValue>::empty());
    }
}

/// What is read as one field, whatever follows, is found under its number.
proof fn lemma_under_field(s: Seq<u8>, f: (u32, FieldValue))
    requires
        forall|rest: Seq<u8>| #[trigger] fields(s + rest) == seq![f] + fields(rest),
    ensures
        complete(s),
        forall|n: u32| #[trigger]
            under(s, n) == (if n == f.0 {
                seq![f.1]
            } else {
                Seq::empty()
            }),
{
    reveal(complete);
    assert(s + Seq::empty() =~= s);
    assert(fields(s + Seq::empty()) == seq![f] + fields(Seq::empty()));
    assert(fields(s) =~= seq![f]);
    lemma_values_one(f);
    assert forall|n: u32| #[trigger]
        under(s, n) == (if n == f.0 {
            seq![f.1]
        } else {
            Seq::empty()
        }) by {
        assert(values(seq![f], n) == values(fields(s), n));
    }
}

/// A number is found under its field.
pub proof fn lemma_under_varint(field: u32, value: u64)
    ensures
        complete(varint_field(field, value)),
        forall|n: u32| #[trigger]
            under(varint_field(field, value), n) == (if n == field {
                one(value)
            } else {
                Seq::empty()
            }),
        varint_field(field, value).len() <= 20,
{
    let f = (field, FieldValue::Varint(value));
    let s = varint_field(field, value);
    assert forall|rest: Seq<u8>| #[trigger] fields(s + rest) == seq![f] + fields(rest) by {
        lemma_fields_varint(field, value, rest);
    }
    lemma_under_field(s, f);
    lemma_varint64_len(value);
    lemma_varint64_len((field * 8 + WIRE_VARINT) as u64);
}

/// A number that is not 0 is found under its field.
pub proof fn lemma_under_nonzero(field: u32, value: u64)
    ensures
        complete(nonzero_field(field, value)),
        forall|n: u32| #[trigger]
            under(nonzero_field(field, value), n) == (if n == field {
                one_unless_zero(value)
            } else {
                Seq::empty()
            }),
        nonzero_field(field, value).len() <= 20,
{
    if value == 0 {
        lemma_under_empty();
    } else {
        lemma_under_varint(field, value);
    }
}

pub proof fn lemma_under_flag(field: u32, set: bool)
    ensures
        complete(flag_field(field, set)),
        forall|n: u32| #[trigger]
            under(flag_field(field, set), n) == (if n == field && set {
                one(1)
            } else {
                Seq::empty()
            }),
{
    if set {
        lemma_under_varint(field, 1);
    } else {
        lemma_under_empty();
    }
}

/// Bytes are found under their field.
pub proof fn lemma_under_len(field: u32, payload: Seq<u8>)
    requires
        payload.len() <= u64::MAX,
    ensures
        complete(len_field(field, payload)),
        forall|n: u32| #[trigger]
            under(len_field(field, payload), n) == (if n == field {
                one_text(payload)
            } else {
                Seq::empty()
            }),
        payload.len() < len_field(field, payload).len() <= payload.len() + 20,
{
    let f = (field, FieldValue::Len(payload));
    let s = len_field(field, payload);
    assert forall|rest: Seq<u8>| #[trigger] fields(s + rest) == seq![f] + fields(rest) by {
        lemma_fields_len(field, payload, rest);
    }
    lemma_under_field(s, f);
    lemma_varint64_len(payload.len() as u64);
    lemma_varint64_len((field * 8 + WIRE_LEN) as u64);
}

/// Bytes that are not empty are found under their field.
pub proof fn lemma_under_nonempty(field: u32, payload: Seq<u8>)
    requires
        payload.len() <= u64::MAX,
    ensures
        complete(nonempty_field(field, payload)),
        forall|n: u32| #[trigger]
            under(nonempty_field(field, payload), n) == (if n == field && payload.len() > 0 {
                one_text(payload)
            } else {
                Seq::empty()
            }),
        payload.len() <= nonempty_field(field, payload).len() <= payload.len() + 20,
{
    if payload.len() == 0 {
        lemma_under_empty();
    } else {
        lemma_under_len(field, payload);
    }
}

/// A message is found under its field.
pub proof fn lemma_under_sub_message(field: u32, body: Seq<u8>)
    requires
        body.len() < 0x8_0000_0000,
    ensures
        complete(sub_message(field, body)),
        forall|n: u32| #[trigger]
            under(sub_message(field, body), n) == (if n == field {
                one_text(body)
            } else {
                Seq::empty()
            }),
        body.len() < sub_message(field, body).len(),
{
    let f = (field, FieldValue::Len(body));
    let s = sub_message(field, body);
    assert forall|rest: Seq<u8>| #[trigger] fields(s + rest) == seq![f] + fields(rest) by {
        lemma_fields_sub_message(field, body, rest);
    }
    lemma_under_field(s, f);
}

/// An empty message has no fields.
pub proof fn lemma_fields_empty()
    ensures
        fields(Seq::empty()) == Seq::<(u32, FieldValue)>::empty(),
{
}

} // verus!
