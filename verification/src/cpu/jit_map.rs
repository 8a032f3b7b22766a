//! The perf map of a runtime (`/tmp/perf-<pid>.map`): the names of the methods
//! that it compiled while running, one `<hex start> <hex size> <name>` line each,
//! the name running to the end of the line.
//!
//! The runtime appends to the map as it compiles, so the map is read again
//! whenever the file's size has changed.

use crate::intern;
use crate::sorted;
use crate::sorted::{insert_by_key, slot_of, HasKey, Keyed};
use crate::text;
use crate::text::{lines_of, split_at_first, string_of, unsigned_of};
use vstd::prelude::*;
use vstd::string::*;

verus! {

/// One method of a perf map.
pub struct JitSym {
    pub start: u64,
    pub size: u64,
    pub name: String,
}

/// A method, as plain values.
pub struct JitSymView {
    pub start: u64,
    pub size: u64,
    pub name: Seq<char>,
}

impl View for JitSym {
    type V = JitSymView;

    open spec fn view(&self) -> JitSymView {
        JitSymView { start: self.start, size: self.size, name: self.name@ }
    }
}

/// A method is ordered by its start.
impl HasKey for JitSymView {
    open spec fn key(self) -> u64 {
        self.start
    }
}

impl HasKey for JitSym {
    open spec fn key(self) -> u64 {
        self.start
    }
}

impl Keyed for JitSym {
    fn key_of(&self) -> (k: u64) {
        self.start
    }
}

pub open spec fn views(s: Seq<JitSym>) -> Seq<JitSymView> {
    Seq::new(s.len(), |i: int| s[i]@)
}

/// The method that a line defines.
pub open spec fn line_sym(line: Seq<char>) -> Option<JitSymView> {
    match text::split_once(line, ' ') {
        None => None,
        Some((a, rest)) => match text::split_once(rest, ' ') {
            None => None,
            Some((b, name)) => match (
                text::parse_unsigned(a, 16, u64::MAX as nat),
                text::parse_unsigned(b, 16, u64::MAX as nat),
            ) {
                (Some(start), Some(size)) => Some(
                    JitSymView { start: start as u64, size: size as u64, name },
                ),
                _ => None,
            },
        },
    }
}

/// The methods that the first `n` lines define.
pub open spec fn line_syms(lines: Seq<Seq<char>>, n: nat) -> Seq<JitSymView>
    decreases n,
{
    if n == 0 {
        Seq::empty()
    } else {
        match line_sym(lines[n - 1]) {
            Some(s) => line_syms(lines, (n - 1) as nat).push(s),
            None => line_syms(lines, (n - 1) as nat),
        }
    }
}

/// The methods of a perf map, by start.
pub open spec fn perf_map(raw: Seq<char>) -> Seq<JitSymView> {
    let lines = text::lines(raw);
    sorted::by_key(line_syms(lines, lines.len()))
}

/// The name of the method that covers `pc`: the last one that starts at or below
/// it, where that reaches past it.
pub open spec fn covering(s: Seq<JitSymView>, pc: u64) -> Option<Seq<char>> {
    let k = sorted::slot(s, pc);
    if k == 0 {
        None
    } else {
        let e = s[k - 1];
        if pc < vstd::wrapping::u64_specs::wrapping_add(e.start, e.size) {
            Some(e.name)
        } else {
            None
        }
    }
}

/// A lookup in an ordered map finds the method that covers `pc` wherever there is
/// just one that could: the last to start at or below it.
pub proof fn lemma_covering(s: Seq<JitSymView>, pc: u64, i: int)
    requires
        sorted::ordered(s),
        0 <= i < s.len(),
        s[i].start <= pc,
        i + 1 < s.len() ==> pc < s[i + 1].start,
        s[i].start + s[i].size <= u64::MAX,
    ensures
        covering(s, pc) == (if pc < s[i].start + s[i].size {
            Some(s[i].name)
        } else {
            None
        }),
{
    sorted::lemma_slot(s, pc);
    let k = sorted::slot(s, pc) as int;
    if k <= i {
        assert(s[i].start > pc);
    }
    if k > i + 1 {
        assert(s[i + 1].start <= s[k - 1].start);
    }
}

fn sym_of(line: &[char]) -> (r: Option<JitSym>)
    ensures
        match r {
            Some(x) => line_sym(line@) == Some(x@),
            None => line_sym(line@) is None,
        },
{
    match split_at_first(line, ' ') {
        None => None,
        Some((a, rest)) => match split_at_first(rest, ' ') {
            None => None,
            Some((b, name)) => {
                match (unsigned_of(a, true, u64::MAX), unsigned_of(b, true, u64::MAX)) {
                    (Some(start), Some(size)) => {
                        Some(JitSym { start, size, name: string_of(name) })
                    },
                    _ => None,
                }
            },
        },
    }
}

/// Methods, and what they are as plain values, have the same slots.
proof fn lemma_views_slot(s: Seq<JitSym>, start: u64)
    ensures
        sorted::slot(views(s), start) == sorted::slot(s, start),
{
    sorted::lemma_slot_by_keys(views(s), s, start);
}

/// The methods of a perf map, by start.
pub fn parse_perf_map(raw: &str) -> (r: Vec<JitSym>)
    ensures
        views(r@) == perf_map(raw@),
        sorted::ordered(views(r@)),
{
    let lines = lines_of(raw);
    let ghost ls = text::lines(raw@);
    let mut out: Vec<JitSym> = Vec::new();
    assert(views(out@) =~= sorted::by_key(Seq::empty()));
    let mut i: usize = 0;
    while i < lines.len()
        invariant
            i <= lines@.len(),
            intern::rows(lines@) == ls,
            views(out@) == sorted::by_key(line_syms(ls, i as nat)),
        decreases lines@.len() - i,
    {
        assert(lines@[i as int]@ == ls[i as int]);
        let ghost before = views(out@);
        if let Some(x) = sym_of(lines[i].as_slice()) {
            let ghost xv = x@;
            let ghost k = sorted::slot(out@, x.start);
            proof {
                lemma_views_slot(out@, x.start);
                sorted::lemma_slot(out@, x.start);
            }
            insert_by_key(&mut out, x);
            proof {
                let all = line_syms(ls, i as nat).push(xv);
                assert(all.drop_last() =~= line_syms(ls, i as nat));
                assert(views(out@) =~= before.insert(k as int, xv));
            }
        }
        i += 1;
    }
    proof {
        sorted::lemma_by_key(line_syms(ls, ls.len()));
    }
    out
}

/// A process's perf map, as it was when it was last read.
pub struct JitMap {
    pub pid: u32,
    pub syms: Option<Vec<JitSym>>,
    pub file_size: u64,
}

impl JitMap {
    pub fn new() -> (r: Self)
        ensures
            r.syms is None,
            r.pid == 0,
            r.file_size == 0,
    {
        JitMap { pid: 0, syms: None, file_size: 0 }
    }

    /// The methods that were last read.
    pub open spec fn methods(self) -> Seq<JitSymView> {
        match self.syms {
            Some(s) => views(s@),
            None => Seq::empty(),
        }
    }

    /// Whether the map of `pid`, whose file is now `size` bytes, has to be read
    /// again: it was never read, or is another process's, or of another size.
    pub open spec fn stale(self, pid: u32, size: u64) -> bool {
        self.syms is None || self.pid != pid || self.file_size != size
    }

    /// Whether the map of `pid`, whose file is now `size` bytes, has to be read
    /// again.
    pub fn is_stale(&self, pid: u32, size: u64) -> (r: bool)
        ensures
            r == self.stale(pid, size),
    {
        self.syms.is_none() || self.pid != pid || self.file_size != size
    }

    /// Take the map of `pid`, of `size` bytes: its text, or None where there is
    /// no such file.
    pub fn load(&mut self, pid: u32, size: u64, raw: Option<&str>)
        ensures
            final(self).pid == pid,
            final(self).file_size == size,
            !final(self).stale(pid, size),
            final(self).methods() == (match raw {
                Some(t) => perf_map(t@),
                None => Seq::empty(),
            }),
    {
        let syms: Vec<JitSym> = match raw {
            Some(t) => parse_perf_map(t),
            None => Vec::new(),
        };
        proof {
            if raw is None {
                assert(views(syms@) =~= Seq::empty());
            }
        }
        self.syms = Some(syms);
        self.pid = pid;
        self.file_size = size;
    }

    /// The name of the method that covers `pc`.
    pub fn name(&self, pc: u64) -> (r: Option<String>)
        ensures
            match r {
                Some(n) => covering(self.methods(), pc) == Some(n@),
                None => covering(self.methods(), pc) is None,
            },
    {
        match &self.syms {
            None => None,
            Some(s) => {
                let k: usize = slot_of(s, pc);
                proof {
                    lemma_views_slot(s@, pc);
                }
                if k == 0 {
                    return None;
                }
                let e = &s[k - 1];
                assert(views(s@)[k - 1] == e@);
                if pc < e.start.wrapping_add(e.size) {
                    Some(e.name.clone())
                } else {
                    None
                }
            },
        }
    }
}

impl Default for JitMap {
    fn default() -> (r: Self)
        ensures
            r.syms is None,
            r.pid == 0,
            r.file_size == 0,
    {
        JitMap::new()
    }
}

/// The methods of a map are those of its lines, ordered by their start: none is lost, and
/// a line that defines none is passed over.
pub proof fn lemma_perf_map(raw: Seq<char>)
    ensures
        ({
            let lines = text::lines(raw);
            let found = line_syms(lines, lines.len());
            &&& sorted::ordered(perf_map(raw))
            &&& perf_map(raw).to_multiset() == found.to_multiset()
        }),
{
    let lines = text::lines(raw);
    sorted::lemma_by_key(line_syms(lines, lines.len()));
}

/// Each line that defines a method adds it behind those before it.
pub proof fn lemma_line_syms(lines: Seq<Seq<char>>, n: nat)
    requires
        n <= lines.len(),
    ensures
        (forall|i: int| 0 <= i < n ==> line_sym(#[trigger] lines[i]) is Some) ==> line_syms(
            lines,
            n,
        ) == Seq::new(n, |i: int| line_sym(lines[i])->0),
        n > 0 && line_sym(lines[n - 1]) is None ==> line_syms(lines, n) == line_syms(
            lines,
            (n - 1) as nat,
        ),
    decreases n,
{
    if n > 0 {
        lemma_line_syms(lines, (n - 1) as nat);
        if forall|i: int| 0 <= i < n ==> line_sym(#[trigger] lines[i]) is Some {
            assert(line_sym(lines[n - 1]) is Some);
            assert(line_syms(lines, n) =~= Seq::new(n, |i: int| line_sym(lines[i])->0));
        }
    } else {
        assert(line_syms(lines, 0) =~= Seq::new(0, |i: int| line_sym(lines[i])->0));
    }
}

} // verus!
