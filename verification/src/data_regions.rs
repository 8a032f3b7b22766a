//! Turning a sampled data address into the memory region it landed in, from the
//! text of `/proc/<pid>/maps`.
//!
//! Every mapping is kept and labelled:
//!   - file-backed: the file's base name ("libc.so.6")
//!   - "[heap]", "[stack]", "[vdso]" and the like: as they stand
//!   - anonymous: "[anon]"

use crate::intern;
use crate::text;
use crate::text::{
    chars_of, has_suffix, pieces_of, runs_of, split_at_first, string_of, tail_after,
    tail_after_runs, unsigned_of,
};
use vstd::prelude::*;
use vstd::slice::slice_subrange;
use vstd::string::*;

verus! {

pub struct Region {
    pub start: u64,
    pub end: u64,
    pub label: String,
}

/// What a region is, as plain values.
pub struct RegionView {
    pub start: u64,
    pub end: u64,
    pub label: Seq<char>,
}

impl View for Region {
    type V = RegionView;

    open spec fn view(&self) -> RegionView {
        RegionView { start: self.start, end: self.end, label: self.label@ }
    }
}

impl Region {
    pub open spec fn holds(self, addr: u64) -> bool {
        self.start <= addr < self.end
    }
}

/// The regions of a process, in the order the maps text lists them. The kernel
/// lists them by ascending address, which [`DataRegions::find`] relies on.
pub struct DataRegions {
    pub regions: Vec<Region>,
}

/// Ascending and apart from each other.
pub open spec fn ascending(r: Seq<Region>) -> bool {
    &&& forall|i: int| 0 <= i < r.len() ==> (#[trigger] r[i]).start <= r[i].end
    &&& forall|i: int, j: int|
        0 <= i < j < r.len() ==> (#[trigger] r[i]).end <= (#[trigger] r[j]).start
}

/// Where a binary search between `lo` and `hi` ends up.
pub open spec fn search(r: Seq<Region>, addr: u64, lo: nat, hi: nat) -> Option<nat>
    decreases hi - lo,
{
    if lo >= hi {
        None
    } else {
        let mid = lo + (hi - lo) as nat / 2;
        if addr < r[mid as int].start {
            search(r, addr, lo, mid)
        } else if addr >= r[mid as int].end {
            search(r, addr, mid + 1, hi)
        } else {
            Some(mid)
        }
    }
}

/// The region that a lookup of `addr` finds.
pub open spec fn found(r: Seq<Region>, addr: u64) -> Option<nat> {
    search(r, addr, 0, r.len())
}

/// What a lookup finds holds the address; and where the regions are ascending, a
/// lookup finds the region that holds the address.
pub proof fn lemma_search(r: Seq<Region>, addr: u64, lo: nat, hi: nat)
    requires
        lo <= hi <= r.len(),
    ensures
        search(r, addr, lo, hi) matches Some(k) ==> lo <= k < hi && r[k as int].holds(addr),
        ascending(r) && search(r, addr, lo, hi) is None ==> forall|i: int|
            lo <= i < hi ==> !(#[trigger] r[i]).holds(addr),
    decreases hi - lo,
{
    if lo < hi {
        let mid = lo + (hi - lo) as nat / 2;
        if addr < r[mid as int].start {
            lemma_search(r, addr, lo, mid);
        } else if addr >= r[mid as int].end {
            lemma_search(r, addr, mid + 1, hi);
        }
    }
}

/// The path of a file, without the mark that the kernel puts behind one that has
/// been removed.
pub open spec fn file_path(path: Seq<char>) -> Seq<char> {
    if text::ends_with(path, " (deleted)"@) {
        path.take(path.len() - " (deleted)"@.len())
    } else {
        path
    }
}

/// The label of a maps path: the last name of a file's path, else all of it.
pub open spec fn path_label(path: Seq<char>) -> Seq<char> {
    if path.len() > 0 && path[0] == '/' {
        text::after_last(file_path(path), '/')
    } else {
        path
    }
}

/// One maps line: `start-end perms offset dev inode pathname`, the path absent for
/// an anonymous mapping. The path is the rest of the line: it may hold blanks.
pub open spec fn line_region(line: Seq<char>) -> Option<RegionView> {
    let words = text::runs(line);
    let path = text::after_runs(line, 5);
    if words.len() < 5 {
        None
    } else {
        match text::split_once(words[0], '-') {
            None => None,
            Some((a, b)) => match (
                text::parse_unsigned(a, 16, u64::MAX as nat),
                text::parse_unsigned(b, 16, u64::MAX as nat),
            ) {
                (Some(start), Some(end)) => Some(
                    RegionView {
                        start: start as u64,
                        end: end as u64,
                        label: if path.len() > 0 {
                            path_label(path)
                        } else {
                            "[anon]"@
                        },
                    },
                ),
                _ => None,
            },
        }
    }
}

/// The regions of the first `n` lines that are regions.
pub open spec fn line_regions(lines: Seq<Seq<char>>, n: nat) -> Seq<RegionView>
    decreases n,
{
    if n == 0 {
        Seq::empty()
    } else {
        match line_region(lines[n - 1]) {
            Some(r) => line_regions(lines, (n - 1) as nat).push(r),
            None => line_regions(lines, (n - 1) as nat),
        }
    }
}

/// The regions that a maps text lists.
pub open spec fn text_regions(raw: Seq<char>) -> Seq<RegionView> {
    let lines = text::pieces(raw, '\n');
    line_regions(lines, lines.len())
}

/// The views of a list of regions.
pub open spec fn views(r: Seq<Region>) -> Seq<RegionView> {
    Seq::new(r.len(), |i: int| r[i]@)
}

fn file_part(path: &[char]) -> (r: &[char])
    ensures
        r@ == file_path(path@),
{
    let mark = chars_of(" (deleted)");
    if !has_suffix(path, mark.as_slice()) {
        return path;
    }
    let r = slice_subrange(path, 0, path.len() - mark.len());
    assert(r@ =~= path@.take(path@.len() - mark@.len()));
    r
}

fn region_of(line: &[char]) -> (r: Option<Region>)
    ensures
        match r {
            Some(x) => line_region(line@) == Some(x@),
            None => line_region(line@) is None,
        },
{
    let words = runs_of(line);
    let ghost w = text::runs(line@);
    if words.len() < 5 {
        return None;
    }
    assert(words@[0]@ == w[0]);
    match split_at_first(words[0].as_slice(), '-') {
        None => None,
        Some((a, b)) => {
            let start: u64 = match unsigned_of(a, true, u64::MAX) {
                Some(v) => v,
                None => {
                    return None;
                },
            };
            let end: u64 = match unsigned_of(b, true, u64::MAX) {
                Some(v) => v,
                None => {
                    return None;
                },
            };
            let path = tail_after_runs(line, 5);
            let label: String = if path.len() > 0 {
                if path[0] == '/' {
                    string_of(tail_after(file_part(path), '/'))
                } else {
                    string_of(path)
                }
            } else {
                "[anon]".to_owned()
            };
            Some(Region { start, end, label })
        },
    }
}

/// One maps line, as its range and label.
pub fn parse_line(line: &str) -> (r: Option<(u64, u64, String)>)
    ensures
        match r {
            Some((start, end, label)) => line_region(line@) == Some(
                RegionView { start, end, label: label@ },
            ),
            None => line_region(line@) is None,
        },
{
    let chars = chars_of(line);
    match region_of(chars.as_slice()) {
        Some(x) => Some((x.start, x.end, x.label)),
        None => None,
    }
}

/// The regions that a maps text lists.
pub fn parse_text(raw: &str) -> (r: Vec<Region>)
    ensures
        views(r@) == text_regions(raw@),
{
    let chars = chars_of(raw);
    let lines = pieces_of(chars.as_slice(), '\n');
    let ghost ls = text::pieces(raw@, '\n');
    let mut out: Vec<Region> = Vec::new();
    let mut i: usize = 0;
    while i < lines.len()
        invariant
            i <= lines@.len(),
            intern::rows(lines@) == ls,
            views(out@) == line_regions(ls, i as nat),
        decreases lines@.len() - i,
    {
        let ghost before = views(out@);
        assert(lines@[i as int]@ == ls[i as int]);
        if let Some(x) = region_of(lines[i].as_slice()) {
            let ghost xv = x@;
            out.push(x);
            assert(views(out@) =~= before.push(xv));
        }
        i += 1;
    }
    out
}

impl DataRegions {
    /// The regions of a maps text, or None where it could not be read.
    pub fn parse(raw: Option<&str>) -> (r: Option<DataRegions>)
        ensures
            match (r, raw) {
                (Some(d), Some(t)) => views(d.regions@) == text_regions(t@),
                (None, None) => true,
                _ => false,
            },
    {
        match raw {
            Some(t) => Some(DataRegions { regions: parse_text(t) }),
            None => None,
        }
    }

    /// The region that holds `addr`, where there is one.
    pub fn find(&self, addr: u64) -> (r: Option<&Region>)
        ensures
            match r {
                Some(x) => found(self.regions@, addr) is Some && *x
                    == self.regions@[found(self.regions@, addr)->0 as int] && x.holds(addr),
                None => found(self.regions@, addr) is None,
            },
            ascending(self.regions@) && r is None ==> forall|i: int|
                0 <= i < self.regions@.len() ==> !(#[trigger] self.regions@[i]).holds(addr),
    {
        proof {
            lemma_search(self.regions@, addr, 0, self.regions@.len());
        }
        let mut lo: usize = 0;
        let mut hi: usize = self.regions.len();
        while lo < hi
            invariant
                lo <= hi <= self.regions@.len(),
                found(self.regions@, addr) == search(self.regions@, addr, lo as nat, hi as nat),
            decreases hi - lo,
        {
            let mid: usize = lo + (hi - lo) / 2;
            let r = &self.regions[mid];
            if addr < r.start {
                hi = mid;
            } else if addr >= r.end {
                lo = mid + 1;
            } else {
                return Some(r);
            }
        }
        None
    }
}

/// Where the regions are ascending, an address is in at most one of them.
pub proof fn lemma_one_region_holds(r: Seq<Region>, i: int, j: int, addr: u64)
    requires
        ascending(r),
        0 <= i < r.len(),
        0 <= j < r.len(),
        r[i].holds(addr),
        r[j].holds(addr),
    ensures
        i == j,
{
}

/// The label of a file is the last name of its path, without the mark of one that was
/// removed; of anything else it is the whole.
#[verifier::spinoff_prover]
#[verifier::rlimit(40)]
pub proof fn lemma_label(dir: Seq<char>, name: Seq<char>, other: Seq<char>)
    requires
        !name.contains('/'),
        !text::ends_with(name, " (deleted)"@),
        other.len() == 0 || other[0] != '/',
    ensures
        path_label(seq!['/'] + dir + seq!['/'] + name) == name,
        path_label(seq!['/'] + dir + seq!['/'] + name + " (deleted)"@) == name,
        path_label(other) == other,
{
    let head = seq!['/'] + dir + seq!['/'];
    let path = head + name;
    let mark = " (deleted)"@;
    reveal_strlit(" (deleted)");
    if name.len() >= mark.len() {
        assert(path.skip(path.len() - mark.len()) =~= name.skip(name.len() - mark.len()));
    } else if text::ends_with(path, mark) {
        let k = mark.len() - name.len() - 1;
        assert(path.skip(path.len() - mark.len())[k] == path[head.len() - 1]);
        assert(mark[k] != '/');
    }
    lemma_after_last(head, name);
    assert((path + mark).skip((path + mark).len() - mark.len()) =~= mark);
    assert((path + mark).take((path + mark).len() - mark.len()) =~= path);
}

proof fn lemma_after_last(head: Seq<char>, name: Seq<char>)
    requires
        head.len() > 0,
        head.last() == '/',
        !name.contains('/'),
    ensures
        text::after_last(head + name, '/') == name,
    decreases name.len(),
{
    if name.len() == 0 {
        assert(head + name =~= head);
        assert(text::after_last(head, '/') =~= name);
    } else {
        let s = head + name;
        assert(s.last() == name.last());
        assert(name[name.len() - 1] != '/');
        assert(s.drop_last() =~= head + name.drop_last());
        assert(!name.drop_last().contains('/')) by {
            if name.drop_last().contains('/') {
                let i = choose|i: int| 0 <= i < name.drop_last().len() && name.drop_last()[i] == '/';
                assert(name[i] == '/');
            }
        }
        lemma_after_last(head, name.drop_last());
        assert(name.drop_last().push(name.last()) =~= name);
    }
}

/// The regions of a text are those of its lines, in their order: a line that is none is
/// passed over, and where all are there is one for each.
pub proof fn lemma_line_regions(lines: Seq<Seq<char>>, n: nat)
    requires
        n <= lines.len(),
    ensures
        (forall|i: int| 0 <= i < n ==> line_region(#[trigger] lines[i]) is Some) ==> line_regions(
            lines,
            n,
        ) == Seq::new(n, |i: int| line_region(lines[i])->0),
        n > 0 && line_region(lines[n - 1]) is None ==> line_regions(lines, n) == line_regions(
            lines,
            (n - 1) as nat,
        ),
    decreases n,
{
    if n > 0 {
        lemma_line_regions(lines, (n - 1) as nat);
        if forall|i: int| 0 <= i < n ==> line_region(#[trigger] lines[i]) is Some {
            assert(line_region(lines[n - 1]) is Some);
            assert(line_regions(lines, n) =~= Seq::new(n, |i: int| line_region(lines[i])->0));
        }
    } else {
        assert(line_regions(lines, 0) =~= Seq::new(0, |i: int| line_region(lines[i])->0));
    }
}

proof fn lemma_run(word: Seq<char>, rest: Seq<char>)
    requires
        word.len() > 0,
        forall|i: int| 0 <= i < word.len() ==> !text::is_blank(#[trigger] word[i]),
        rest.len() == 0 || text::is_blank(rest[0]),
    ensures
        text::runs(word + rest) == seq![word] + text::runs(rest),
        forall|n: nat| #[trigger]
            text::after_runs(word + rest, n + 1) == text::after_runs(rest, n),
{
    let s = word + rest;
    lemma_run_len(word, rest);
    assert(s.take(word.len() as int) =~= word);
    assert(s.skip(word.len() as int) =~= rest);
    assert(!text::is_blank(s[0])) by {
        assert(s[0] == word[0]);
    }
    assert(text::skip_blanks(s) == s);
}

proof fn lemma_run_len(word: Seq<char>, rest: Seq<char>)
    requires
        forall|i: int| 0 <= i < word.len() ==> !text::is_blank(#[trigger] word[i]),
        rest.len() == 0 || text::is_blank(rest[0]),
    ensures
        text::run_len(word + rest) == word.len(),
    decreases word.len(),
{
    let s = word + rest;
    if word.len() == 0 {
        assert(s =~= rest);
    } else {
        assert(s[0] == word[0]);
        assert(s.drop_first() =~= word.drop_first() + rest);
        assert forall|i: int| 0 <= i < word.drop_first().len() implies !text::is_blank(
            #[trigger] word.drop_first()[i],
        ) by {
            assert(word.drop_first()[i] == word[i + 1]);
        }
        lemma_run_len(word.drop_first(), rest);
    }
}

proof fn lemma_after_blank(s: Seq<char>)
    ensures
        text::runs(seq![' '] + s) == text::runs(s),
        forall|n: nat| #[trigger] text::after_runs(seq![' '] + s, n) == text::after_runs(s, n),
{
    assert((seq![' '] + s).drop_first() =~= s);
    assert(text::skip_blanks(seq![' '] + s) == text::skip_blanks(s));
}

/// Whether a text is a word: not empty, and without blanks.
pub open spec fn is_word(s: Seq<char>) -> bool {
    s.len() > 0 && forall|i: int| 0 <= i < s.len() ==> !text::is_blank(#[trigger] s[i])
}

/// A line of the maps is read back: the first word is the range, from its start to its end
/// in hexadecimal, four words follow that are not looked at, and what is left is the path.
#[verifier::spinoff_prover]
#[verifier::rlimit(40)]
pub proof fn lemma_line_read_back(
    start: Seq<char>,
    end: Seq<char>,
    perms: Seq<char>,
    offset: Seq<char>,
    dev: Seq<char>,
    inode: Seq<char>,
    path: Seq<char>,
)
    requires
        is_word(start),
        !start.contains('-'),
        is_word(end),
        is_word(perms),
        is_word(offset),
        is_word(dev),
        is_word(inode),
        path.len() > 0,
        !text::is_blank(path[0]),
        text::parse_unsigned(start, 16, u64::MAX as nat) is Some,
        text::parse_unsigned(end, 16, u64::MAX as nat) is Some,
    ensures
        ({
            let range = start + seq!['-'] + end;
            let head = range + (seq![' '] + (perms + (seq![' '] + (offset + (seq![' '] + (dev + (
            seq![' '] + inode)))))));
            let line = range + (seq![' '] + (perms + (seq![' '] + (offset + (seq![' '] + (dev + (
            seq![' '] + (inode + (seq![' '] + path)))))))));
            let a = text::parse_unsigned(start, 16, u64::MAX as nat)->0 as u64;
            let b = text::parse_unsigned(end, 16, u64::MAX as nat)->0 as u64;
            &&& line_region(line) == Some(
                RegionView { start: a, end: b, label: path_label(path) },
            )
            &&& line_region(head) == Some(RegionView { start: a, end: b, label: "[anon]"@ })
        }),
{
    let none = Seq::<char>::empty();
    let range = start + seq!['-'] + end;
    assert(is_word(range)) by {
        assert forall|i: int| 0 <= i < range.len() implies !text::is_blank(#[trigger] range[i]) by {
            if i < start.len() {
                assert(range[i] == start[i]);
            } else if i > start.len() {
                assert(range[i] == end[i - start.len() - 1]);
            }
        }
    }
    let l5 = inode + (seq![' '] + path);
    let l4 = dev + (seq![' '] + l5);
    let l3 = offset + (seq![' '] + l4);
    let l2 = perms + (seq![' '] + l3);
    let h4 = dev + (seq![' '] + inode);
    let h3 = offset + (seq![' '] + h4);
    let h2 = perms + (seq![' '] + h3);
    lemma_run(range, seq![' '] + l2);
    lemma_after_blank(l2);
    lemma_run(perms, seq![' '] + l3);
    lemma_after_blank(l3);
    lemma_run(offset, seq![' '] + l4);
    lemma_after_blank(l4);
    lemma_run(dev, seq![' '] + l5);
    lemma_after_blank(l5);
    lemma_run(inode, seq![' '] + path);
    lemma_after_blank(path);
    lemma_run(range, seq![' '] + h2);
    lemma_after_blank(h2);
    lemma_run(perms, seq![' '] + h3);
    lemma_after_blank(h3);
    lemma_run(offset, seq![' '] + h4);
    lemma_after_blank(h4);
    lemma_run(dev, seq![' '] + inode);
    lemma_after_blank(inode);
    lemma_run(inode, none);
    assert(inode + none =~= inode);
    let line = range + (seq![' '] + l2);
    let head = range + (seq![' '] + h2);
    assert(text::after_runs(line, 4 + 1) == text::after_runs(l2, 4));
    assert(text::after_runs(l2, 3 + 1) == text::after_runs(l3, 3));
    assert(text::after_runs(l3, 2 + 1) == text::after_runs(l4, 2));
    assert(text::after_runs(l4, 1 + 1) == text::after_runs(l5, 1));
    assert(text::after_runs(l5, 0 + 1) == text::after_runs(path, 0));
    assert(text::skip_blanks(path) == path);
    assert(text::after_runs(head, 4 + 1) == text::after_runs(h2, 4));
    assert(text::after_runs(h2, 3 + 1) == text::after_runs(h3, 3));
    assert(text::after_runs(h3, 2 + 1) == text::after_runs(h4, 2));
    assert(text::after_runs(h4, 1 + 1) == text::after_runs(inode, 1));
    assert(text::after_runs(inode + none, 0 + 1) == text::after_runs(none, 0));
    assert(text::runs(line)[0] == range && text::runs(line).len() >= 5);
    assert(text::runs(head)[0] == range && text::runs(head).len() >= 5);
    text::lemma_index_of_is(range, '-', start.len());
    assert(range.take(start.len() as int) =~= start);
    assert(range.skip(start.len() as int + 1) =~= end);
}

} // verus!
