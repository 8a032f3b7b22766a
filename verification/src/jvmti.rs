//! The agent that writes a perf map from inside a Java virtual machine: how a
//! method is named, and the line it gets.

use crate::cpu::jit_map;
use crate::digits;
use crate::digits::unsigned_digits;
use crate::text;
use crate::text::{chars_of, string_of};
use vstd::prelude::*;

verus! {

/// A class signature without its marks: `Lpath/Name;` is the class path/Name.
/// Another signature stays as it is.
pub open spec fn class_path(sig: Seq<char>) -> Seq<char> {
    if sig.len() >= 2 && sig[0] == 'L' && sig.last() == ';' {
        sig.subrange(1, sig.len() - 1)
    } else {
        sig
    }
}

pub open spec fn dotted(s: Seq<char>) -> Seq<char> {
    Seq::new(
        s.len(),
        |i: int|
            if s[i] == '/' {
                '.'
            } else {
                s[i]
            },
    )
}

/// The name of a method: its class, with dots, and the method.
pub open spec fn method_name(sig: Seq<char>, method: Seq<char>) -> Seq<char> {
    dotted(class_path(sig)) + seq![':', ':'] + method
}

pub fn clean_name(class_sig: &str, method: &str) -> (r: String)
    ensures
        r@ == method_name(class_sig@, method@),
{
    let sig = chars_of(class_sig);
    let mut from: usize = 0;
    let mut to: usize = sig.len();
    if sig.len() >= 2 && sig[0] == 'L' && sig[sig.len() - 1] == ';' {
        from = 1;
        to = sig.len() - 1;
    }
    let ghost cls = class_path(sig@);
    assert(cls =~= sig@.subrange(from as int, to as int));
    let mut out: Vec<char> = Vec::new();
    let mut i: usize = from;
    while i < to
        invariant
            from <= i <= to <= sig@.len(),
            cls == sig@.subrange(from as int, to as int),
            out@ == dotted(cls).take(i - from),
        decreases to - i,
    {
        assert(cls[i - from] == sig@[i as int]);
        if sig[i] == '/' {
            out.push('.');
        } else {
            out.push(sig[i]);
        }
        i += 1;
        assert(out@ =~= dotted(cls).take(i - from));
    }
    assert(out@ =~= dotted(cls));
    out.push(':');
    out.push(':');
    let mut m = chars_of(method);
    out.append(&mut m);
    assert(out@ =~= method_name(class_sig@, method@));
    string_of(out.as_slice())
}

/// The line of a method: its start and its size in hexadecimal, and its name.
pub open spec fn entry_line(start: u64, size: u64, name: Seq<char>) -> Seq<char> {
    digits::digits(start as nat, 16) + seq![' '] + digits::digits(size as nat, 16) + seq![' ']
        + name + seq!['\n']
}

pub fn perf_map_entry(start: u64, size: u64, name: &str) -> (r: String)
    ensures
        r@ == entry_line(start, size, name@),
{
    let mut v = unsigned_digits(start, true);
    v.push(' ');
    let mut s = unsigned_digits(size, true);
    v.append(&mut s);
    v.push(' ');
    let mut n = chars_of(name);
    v.append(&mut n);
    v.push('\n');
    assert(v@ =~= entry_line(start, size, name@));
    string_of(v.as_slice())
}

proof fn lemma_split(a: Seq<char>, c: char, b: Seq<char>)
    requires
        forall|i: int| 0 <= i < a.len() ==> a[i] != c,
    ensures
        text::split_once(a + seq![c] + b, c) == Some((a, b)),
{
    let s = a + seq![c] + b;
    text::lemma_index_of_is(s, c, a.len());
    assert(s.take(a.len() as int) =~= a);
    assert(s.skip(a.len() as int + 1) =~= b);
}

/// A line of the agent, whatever follows it, is read as its one method by whoever
/// reads the map; the name must stand on one line.
pub proof fn lemma_entry_read_back(start: u64, size: u64, name: Seq<char>, rest: Seq<char>)
    requires
        forall|i: int| 0 <= i < name.len() ==> name[i] != '\n' && name[i] != '\r',
    ensures
        text::lines(entry_line(start, size, name) + rest).len() > 0,
        jit_map::line_sym(text::lines(entry_line(start, size, name) + rest)[0]) == Some(
            (jit_map::JitSymView { start, size, name }),
        ),
        text::lines(entry_line(start, size, name) + rest).drop_first() == text::lines(rest),
{
    let a = digits::digits(start as nat, 16);
    let b = digits::digits(size as nat, 16);
    let tail = b + seq![' '] + name;
    let line = a + seq![' '] + tail;
    let all = entry_line(start, size, name) + rest;
    digits::lemma_plain(start as nat, 16);
    digits::lemma_plain(size as nat, 16);
    digits::lemma_read_back(start as nat, 16);
    digits::lemma_read_back(size as nat, 16);
    assert forall|i: int| 0 <= i < a.len() implies a[i] != ' ' by {
        assert(!text::is_space(a[i]));
    }
    assert forall|i: int| 0 <= i < b.len() implies b[i] != ' ' by {
        assert(!text::is_space(b[i]));
    }
    lemma_split(a, ' ', tail);
    lemma_split(b, ' ', name);
    assert forall|i: int| 0 <= i < line.len() implies line[i] != '\n' && line[i] != '\r' by {
        if i < a.len() {
            assert(line[i] == a[i]);
            assert(!text::is_space(a[i]));
        } else if i > a.len() {
            let k = i - a.len() - 1;
            assert(line[i] == tail[k]);
            if k < b.len() {
                assert(!text::is_space(b[k]));
            } else if k > b.len() {
                assert(tail[k] == name[k - b.len() - 1]);
            }
        }
    }
    assert(all =~= line + seq!['\n'] + rest);
    text::lemma_index_of_is(all, '\n', line.len());
    assert(all.take(line.len() as int) =~= line);
    assert(all.skip(line.len() as int + 1) =~= rest);
    assert(text::without_cr(line) == line);
    assert(text::lines(all) == seq![line] + text::lines(rest));
    assert((seq![line] + text::lines(rest)).drop_first() =~= text::lines(rest));
}

/// The name of a method of a class: the path of the class between its marks, with a dot for
/// each slash, two colons, and the method. A signature without the marks stays whole.
pub proof fn lemma_method_name(path: Seq<char>, method: Seq<char>, other: Seq<char>)
    requires
        other.len() > 0 ==> other[0] != 'L' || other.last() != ';',
    ensures
        ({
            let n = method_name(seq!['L'] + path + seq![';'], method);
            &&& n.len() == path.len() + 2 + method.len()
            &&& forall|i: int|
                0 <= i < path.len() ==> (#[trigger] n[i]) == (if path[i] == '/' {
                    '.'
                } else {
                    path[i]
                })
            &&& n[path.len() as int] == ':' && n[path.len() as int + 1] == ':'
            &&& n.skip(path.len() as int + 2) == method
        }),
        method_name(other, method).len() == other.len() + 2 + method.len(),
        !dotted(path).contains('/'),
{
    let sig = seq!['L'] + path + seq![';'];
    assert(class_path(sig) =~= path);
    let n = method_name(sig, method);
    assert(n.skip(path.len() as int + 2) =~= method);
    assert(class_path(other) == other);
}

} // verus!
