//! The breadcrumbs that are left for a crash: one line for each event.

use crate::digits;
use crate::digits::unsigned_digits;
use crate::text::{chars_of, same_chars, string_of};
use vstd::prelude::*;

verus! {

/// A field of an event: its name, and its value as text.
pub struct FieldText {
    pub name: String,
    pub value: String,
}

/// The message of an event as it is; every other field as ` name=value`.
pub open spec fn field_text(f: FieldText) -> Seq<char> {
    if f.name@ == "message"@ {
        f.value@
    } else {
        seq![' '] + f.name@ + seq!['='] + f.value@
    }
}

pub open spec fn fields_text(fs: Seq<FieldText>, n: nat) -> Seq<char>
    decreases n,
{
    if n == 0 {
        Seq::empty()
    } else {
        fields_text(fs, (n - 1) as nat) + field_text(fs[n - 1])
    }
}

/// A line: the time of day and the time since the start, both in milliseconds, the
/// process, and the event.
pub open spec fn line_text(unix_ms: u64, mono_ms: u64, pid: u32, fs: Seq<FieldText>) -> Seq<char> {
    digits::digits(unix_ms as nat, 10) + seq![' '] + digits::digits(mono_ms as nat, 10) + seq![' ']
        + digits::digits(pid as nat, 10) + seq![' '] + fields_text(fs, fs.len()) + seq!['\n']
}

fn append_field(v: &mut Vec<char>, f: &FieldText)
    ensures
        final(v)@ == old(v)@ + field_text(*f),
{
    let mut name = chars_of(f.name.as_str());
    let mut value = chars_of(f.value.as_str());
    let message = chars_of("message");
    if !same_chars(name.as_slice(), message.as_slice()) {
        v.push(' ');
        v.append(&mut name);
        v.push('=');
    }
    v.append(&mut value);
    assert(v@ =~= old(v)@ + field_text(*f));
}

/// The line of an event.
pub fn crash_line(unix_ms: u64, mono_ms: u64, pid: u32, fields: &Vec<FieldText>) -> (r: String)
    ensures
        r@ == line_text(unix_ms, mono_ms, pid, fields@),
{
    let mut v = unsigned_digits(unix_ms, false);
    v.push(' ');
    let mut m = unsigned_digits(mono_ms, false);
    v.append(&mut m);
    v.push(' ');
    let mut p = unsigned_digits(pid as u64, false);
    v.append(&mut p);
    v.push(' ');
    let ghost head = v@;
    let mut i: usize = 0;
    assert(head + fields_text(fields@, 0) =~= head);
    while i < fields.len()
        invariant
            i <= fields@.len(),
            v@ == head + fields_text(fields@, i as nat),
        decreases fields@.len() - i,
    {
        append_field(&mut v, &fields[i]);
        i += 1;
        assert(v@ =~= head + fields_text(fields@, i as nat));
    }
    v.push('\n');
    assert(v@ =~= line_text(unix_ms, mono_ms, pid, fields@));
    string_of(v.as_slice())
}

} // verus!
