//! The files by which sessions find one another: the lock, which names the
//! recorder, and the description of the live session.

use crate::digits;
use crate::digits::signed_digits;
use crate::intern;
use crate::text;
use crate::text::{after_prefix, chars_of, lines_of, signed_of, string_of, trimmed};
use vstd::prelude::*;
use vstd::utf8::*;

verus! {

/// Why the session's lock was not acquired.
#[derive(Clone, Copy, PartialEq, Eq, Structural, Debug)]
pub enum LockError {
    /// The file could not be opened.
    Open,
    /// Another session holds it.
    Held,
}

/// What came of trying to lock.
pub fn lock_outcome(opened: bool, locked: bool) -> (r: Result<(), LockError>)
    ensures
        r == (if !opened {
            Err(LockError::Open)
        } else if !locked {
            Err(LockError::Held)
        } else {
            Ok(())
        }),
{
    if !opened {
        return Err(LockError::Open);
    }
    if !locked {
        return Err(LockError::Held);
    }
    Ok(())
}

/// What the lock's file holds: the recorder's id, in a line of its own.
pub open spec fn lock_text(pid: i32) -> Seq<char> {
    digits::signed(pid as int).push('\n')
}

pub fn lock_body(pid: i32) -> (s: String)
    ensures
        s@ == lock_text(pid),
{
    let mut d = signed_digits(pid);
    d.push('\n');
    string_of(d.as_slice())
}

/// `std::str::from_utf8`: the text that the bytes encode; None exactly where they
/// are no UTF-8.
#[verifier::external_body]
fn utf8_text(b: &[u8]) -> (r: Option<&str>)
    ensures
        match r {
            Some(s) => valid_utf8(b@) && s@ == decode_utf8(b@),
            None => !valid_utf8(b@),
        },
{
    std::str::from_utf8(b).ok()
}

/// The recorder's id in what was read of the lock's file; None where nothing was
/// read, or it is no number.
pub open spec fn recorder_pid(read: Option<Seq<u8>>) -> Option<i32> {
    match read {
        Some(b) => if valid_utf8(b) {
            text::parse_signed(text::trim(decode_utf8(b)))
        } else {
            None
        },
        None => None,
    }
}

pub fn read_recorder_pid(read: Option<&[u8]>) -> (r: Option<i32>)
    ensures
        r == recorder_pid(
            match read {
                Some(b) => Some(b@),
                None => None,
            },
        ),
{
    match read {
        Some(b) => match utf8_text(b) {
            Some(s) => {
                let chars = chars_of(s);
                signed_of(trimmed(chars.as_slice()))
            },
            None => None,
        },
        None => None,
    }
}

/// What a live session says of itself.
pub struct SessionMeta {
    pub target_pid: i32,
    /// What the session is focused on, if anything.
    pub focus: Option<String>,
}

pub open spec fn opt_text(s: Option<String>) -> Option<Seq<char>> {
    match s {
        Some(t) => Some(t@),
        None => None,
    }
}

/// The description as text: one line for the target, and one for the focus.
pub open spec fn meta_text(pid: i32, focus: Option<Seq<char>>) -> Seq<char> {
    let first = ("target_pid="@ + digits::signed(pid as int)).push('\n');
    match focus {
        Some(f) => first + ("focus="@ + f).push('\n'),
        None => first,
    }
}

/// The description to be written.
pub fn write_session_meta(meta: &SessionMeta) -> (s: String)
    ensures
        s@ == meta_text(meta.target_pid, opt_text(meta.focus)),
{
    let mut v = chars_of("target_pid=");
    let mut d = signed_digits(meta.target_pid);
    v.append(&mut d);
    v.push('\n');
    match &meta.focus {
        Some(f) => {
            let mut k = chars_of("focus=");
            let mut c = chars_of(f.as_str());
            v.append(&mut k);
            v.append(&mut c);
            v.push('\n');
        },
        None => {},
    }
    assert(v@ =~= meta_text(meta.target_pid, opt_text(meta.focus)));
    string_of(v.as_slice())
}

/// What the lines so far have said: the last of each kind counts.
#[verifier::ext_equal]
pub struct MetaView {
    pub target_pid: Option<i32>,
    pub focus: Option<Seq<char>>,
}

pub open spec fn line_step(m: MetaView, line: Seq<char>) -> MetaView {
    match text::strip_prefix(line, "target_pid="@) {
        Some(v) => MetaView { target_pid: text::parse_signed(text::trim(v)), ..m },
        None => match text::strip_prefix(line, "focus="@) {
            Some(v) => MetaView { focus: Some(text::trim(v)), ..m },
            None => m,
        },
    }
}

pub open spec fn after_lines(lines: Seq<Seq<char>>, n: nat) -> MetaView
    decreases n,
{
    if n == 0 {
        MetaView { target_pid: None, focus: None }
    } else {
        line_step(after_lines(lines, (n - 1) as nat), lines[n - 1])
    }
}

/// What a text says of a session; None where it names no target.
pub open spec fn meta_of(body: Seq<char>) -> Option<(i32, Option<Seq<char>>)> {
    let lines = text::lines(body);
    let m = after_lines(lines, lines.len());
    match m.target_pid {
        Some(pid) => Some((pid, m.focus)),
        None => None,
    }
}

/// The description in what was read; None where nothing was, or it names no target.
pub fn read_session_meta(body: Option<&str>) -> (r: Option<SessionMeta>)
    ensures
        match body {
            None => r is None,
            Some(b) => match meta_of(b@) {
                None => r is None,
                Some(m) => r matches Some(x) && x.target_pid == m.0 && opt_text(x.focus) == m.1,
            },
        },
{
    let b = match body {
        Some(b) => b,
        None => {
            return None;
        },
    };
    let lines = lines_of(b);
    let ghost ls = text::lines(b@);
    let mut target_pid: Option<i32> = None;
    let mut focus: Option<String> = None;
    let mut i: usize = 0;
    while i < lines.len()
        invariant
            i <= lines@.len(),
            intern::rows(lines@) == ls,
            after_lines(ls, i as nat) == (MetaView { target_pid, focus: opt_text(focus) }),
        decreases lines@.len() - i,
    {
        assert(lines@[i as int]@ == ls[i as int]);
        let line = lines[i].as_slice();
        if let Some(v) = after_prefix(line, "target_pid=") {
            target_pid = signed_of(trimmed(v));
        } else if let Some(v) = after_prefix(line, "focus=") {
            focus = Some(string_of(trimmed(v)));
        }
        i += 1;
    }
    match target_pid {
        Some(pid) => Some(SessionMeta { target_pid: pid, focus }),
        None => None,
    }
}

/// A line, followed by other lines.
proof fn lemma_first_line(line: Seq<char>, rest: Seq<char>)
    requires
        !line.contains('\n'),
        line.len() > 0 ==> line.last() != '\r',
    ensures
        text::lines(line.push('\n') + rest) == seq![line] + text::lines(rest),
{
    let s = line.push('\n') + rest;
    text::lemma_index_of_is(s, '\n', line.len());
    assert(s.take(line.len() as int) =~= line);
    assert(s.skip(line.len() as int + 1) =~= rest);
    assert(text::without_cr(line) == line);
}

proof fn lemma_trim_nothing(s: Seq<char>)
    requires
        s.len() > 0 ==> !text::is_space(s[0]) && !text::is_space(s.last()),
    ensures
        text::trim(s) == s,
{
}

proof fn lemma_digits_line(pid: i32)
    ensures
        ({
            let d = digits::signed(pid as int);
            &&& d.len() > 0
            &&& forall|i: int| 0 <= i < d.len() ==> !text::is_space(#[trigger] d[i])
            &&& !d.contains('\n')
        }),
{
    let d = digits::signed(pid as int);
    let m: nat = if pid < 0 {
        (-pid) as nat
    } else {
        pid as nat
    };
    digits::lemma_plain(m, 10);
    assert forall|i: int| 0 <= i < d.len() implies !text::is_space(#[trigger] d[i]) by {
        if pid < 0 {
            if i > 0 {
                assert(d[i] == digits::digits(m, 10)[i - 1]);
            }
        } else {
            assert(d[i] == digits::digits(m, 10)[i]);
        }
    }
    if d.contains('\n') {
        let i = choose|i: int| 0 <= i < d.len() && d[i] == '\n';
        assert(text::is_space(d[i]));
    }
}

/// A session that was described is read back as it was. A focus with a line break
/// in it, or with white space around it, is left out: it is read back without.
pub proof fn lemma_meta_read_back(pid: i32, focus: Option<Seq<char>>)
    requires
        focus matches Some(f) ==> !f.contains('\n') && text::trim(f) == f,
    ensures
        meta_of(meta_text(pid, focus)) == Some((pid, focus)),
{
    reveal_strlit("target_pid=");
    reveal_strlit("focus=");
    let d = digits::signed(pid as int);
    lemma_digits_line(pid);
    digits::lemma_signed_read_back(pid);
    let l1 = "target_pid="@ + d;
    assert(!l1.contains('\n'));
    assert(l1.last() == d.last());
    let rest = match focus {
        Some(f) => ("focus="@ + f).push('\n'),
        None => Seq::empty(),
    };
    lemma_first_line(l1, rest);
    assert(meta_text(pid, focus) =~= l1.push('\n') + rest);
    assert(l1.take(11) =~= "target_pid="@);
    assert(l1.skip(11) =~= d);
    lemma_trim_nothing(d);
    let none = MetaView { target_pid: None, focus: None };
    let m1 = line_step(none, l1);
    assert(m1 == (MetaView { target_pid: Some(pid), focus: None }));
    match focus {
        None => {
            let ls = text::lines(meta_text(pid, focus));
            assert(ls =~= seq![l1]);
            assert(after_lines(ls, 0) == none);
            assert(after_lines(ls, 1) == m1);
        },
        Some(f) => {
            let l2 = "focus="@ + f;
            assert(!l2.contains('\n'));
            if f.len() > 0 {
                text::lemma_trim(f);
                assert(l2.last() == f.last());
            }
            lemma_first_line(l2, Seq::empty());
            assert(rest =~= l2.push('\n') + Seq::empty());
            let ls = text::lines(meta_text(pid, focus));
            assert(text::lines(Seq::empty()) =~= Seq::empty());
            assert(ls =~= seq![l1, l2]);
            assert(l2[0] != "target_pid="@[0]);
            assert(text::strip_prefix(l2, "target_pid="@) is None) by {
                if l2.len() >= 11 {
                    assert(l2.take(11)[0] == l2[0]);
                }
            }
            assert(l2.take(6) =~= "focus="@);
            assert(l2.skip(6) =~= f);
            assert(after_lines(ls, 0) == none);
            assert(after_lines(ls, 1) == m1);
            assert(after_lines(ls, 2) == line_step(m1, l2));
        },
    }
}

/// What is read of a lock that was written is the recorder's id, as long as all of
/// it is read.
pub proof fn lemma_lock_read_back(pid: i32, b: Seq<u8>)
    requires
        valid_utf8(b),
        decode_utf8(b) == lock_text(pid),
    ensures
        recorder_pid(Some(b)) == Some(pid),
{
    let d = digits::signed(pid as int);
    let s = lock_text(pid);
    lemma_digits_line(pid);
    digits::lemma_signed_read_back(pid);
    assert(s[0] == d[0]);
    assert(text::trim_start(s) == s);
    assert(text::is_space('\n'));
    assert(s.drop_last() =~= d);
    assert(text::trim_end(s) == text::trim_end(d));
    assert(text::trim_end(d) == d);
}

/// Which of the places of the heap's library is taken: the first that exists, else
/// the one for a build tree.
pub const HEAP_DYLIB_FALLBACK: usize = 1;

pub const HEAP_DYLIB_LAYOUTS: usize = 4;

pub open spec fn first_true(b: Seq<bool>, n: nat) -> Option<nat>
    decreases b.len() - n,
{
    if n >= b.len() {
        None
    } else if b[n as int] {
        Some(n)
    } else {
        first_true(b, n + 1)
    }
}

/// The places of the heap's library, from the directory of the program, the most
/// specific first.
pub fn heap_dylib_layout(i: usize) -> (s: &'static str)
    requires
        i < HEAP_DYLIB_LAYOUTS,
    ensures
        s@ == layout_of(i as nat),
{
    if i == 0 {
        "../libexec/sismo/libsismo_heap.dylib"
    } else if i == 1 {
        "../../../../dev-install/lib/libsismo_heap.dylib"
    } else if i == 2 {
        "../../../dev-install/lib/libsismo_heap.dylib"
    } else {
        "../lib/libsismo_heap.dylib"
    }
}

pub open spec fn layout_of(i: nat) -> Seq<char> {
    if i == 0 {
        "../libexec/sismo/libsismo_heap.dylib"@
    } else if i == 1 {
        "../../../../dev-install/lib/libsismo_heap.dylib"@
    } else if i == 2 {
        "../../../dev-install/lib/libsismo_heap.dylib"@
    } else {
        "../lib/libsismo_heap.dylib"@
    }
}

/// Which place is taken, where `exists` says of each whether the library is there.
pub fn choose_layout(exists: &[bool]) -> (i: usize)
    requires
        exists@.len() == HEAP_DYLIB_LAYOUTS,
    ensures
        i == (match first_true(exists@, 0) {
            Some(k) => k as usize,
            None => HEAP_DYLIB_FALLBACK,
        }),
        i < HEAP_DYLIB_LAYOUTS,
{
    let mut k: usize = 0;
    while k < exists.len()
        invariant
            k <= exists@.len(),
            exists@.len() == HEAP_DYLIB_LAYOUTS,
            first_true(exists@, k as nat) == first_true(exists@, 0),
        decreases exists@.len() - k,
    {
        if exists[k] {
            return k;
        }
        k += 1;
    }
    HEAP_DYLIB_FALLBACK
}

} // verus!
