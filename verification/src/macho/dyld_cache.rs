//! The symbols of a library that exists only in the shared cache of the loader.

use crate::bytes::same_bytes;
use crate::text;
use crate::text::{after_prefix, chars_of, same_chars, string_of};
use object::read::macho::DyldCache;
use object::{Object, ObjectSegment, ObjectSymbol};
use vstd::prelude::*;

verus! {

/// Where the caches are: the newest place first.
pub fn cache_dirs() -> (r: Vec<&'static str>)
    ensures
        r@.len() == 2,
        r@[0]@ == "/System/Volumes/Preboot/Cryptexes/OS/System/Library/dyld"@,
        r@[1]@ == "/System/Library/dyld"@,
{
    let mut r: Vec<&'static str> = Vec::new();
    r.push("/System/Volumes/Preboot/Cryptexes/OS/System/Library/dyld");
    r.push("/System/Library/dyld");
    r
}

/// The kinds of machine that a cache is for: the machine's own first.
pub fn cache_arches(aarch64: bool) -> (r: Vec<&'static str>)
    ensures
        r@.len() == 3,
        aarch64 ==> r@[0]@ == "arm64e"@ && r@[1]@ == "x86_64h"@ && r@[2]@ == "x86_64"@,
        !aarch64 ==> r@[0]@ == "x86_64h"@ && r@[1]@ == "x86_64"@ && r@[2]@ == "arm64e"@,
{
    let mut r: Vec<&'static str> = Vec::new();
    if aarch64 {
        r.push("arm64e");
    }
    r.push("x86_64h");
    r.push("x86_64");
    if !aarch64 {
        r.push("arm64e");
    }
    r
}

/// The path of a cache's main file.
pub fn cache_path(dir: &str, arch: &str) -> (r: String)
    ensures
        r@ == dir@ + "/dyld_shared_cache_"@ + arch@,
{
    let mut v = chars_of(dir);
    let mut m = chars_of("/dyld_shared_cache_");
    let mut a = chars_of(arch);
    v.append(&mut m);
    v.append(&mut a);
    assert(v@ =~= dir@ + "/dyld_shared_cache_"@ + arch@);
    string_of(v.as_slice())
}

/// A symbol as it stands in the cache.
pub struct RawSym {
    pub address: u64,
    pub is_definition: bool,
    /// The name; None where it could not be read.
    pub name: Option<String>,
}

pub open spec fn chars(s: Option<String>) -> Option<Seq<char>> {
    match s {
        Some(t) => Some(t@),
        None => None,
    }
}

impl View for RawSym {
    type V = (u64, bool, Option<Seq<char>>);

    open spec fn view(&self) -> (u64, bool, Option<Seq<char>>) {
        (self.address, self.is_definition, chars(self.name))
    }
}

/// A segment as it stands in the cache; the name is None where it has none or it
/// could not be read.
pub struct RawSegment {
    pub name: Option<String>,
    pub address: u64,
}

/// A library in the cache.
pub struct RawImage {
    /// Its identity; None where it has none or it could not be read.
    pub uuid: Option<[u8; 16]>,
    pub segments: Vec<RawSegment>,
    pub symbols: Vec<RawSym>,
}

pub open spec fn segment_views(s: Seq<RawSegment>) -> Seq<(Option<Seq<char>>, u64)> {
    Seq::new(s.len(), |i: int| (chars(s[i].name), s[i].address))
}

pub open spec fn symbol_views(s: Seq<RawSym>) -> Seq<(u64, bool, Option<Seq<char>>)> {
    Seq::new(s.len(), |i: int| s[i]@)
}

impl View for RawImage {
    type V = (
        Option<Seq<u8>>,
        Seq<(Option<Seq<char>>, u64)>,
        Seq<(u64, bool, Option<Seq<char>>)>,
    );

    open spec fn view(&self) -> (
        Option<Seq<u8>>,
        Seq<(Option<Seq<char>>, u64)>,
        Seq<(u64, bool, Option<Seq<char>>)>,
    ) {
        (
            match self.uuid {
                Some(u) => Some(u@),
                None => None,
            },
            segment_views(self.segments@),
            symbol_views(self.symbols@),
        )
    }
}

/// The files of a cache: the main one, and the others in the order that the main one
/// gives them.
pub struct CacheFiles<'a> {
    pub main: &'a [u8],
    pub subs: Vec<&'a [u8]>,
}

pub open spec fn sub_bytes(subs: Seq<&[u8]>) -> Seq<Seq<u8>> {
    Seq::new(subs.len(), |i: int| subs[i]@)
}

/// What `object::read::macho::DyldCache::subcache_suffixes` makes of a main file.
pub uninterp spec fn suffixes_of(main: Seq<u8>) -> Option<Seq<Seq<char>>>;

/// The path of each image that `object::read::macho::DyldCache` finds in a cache,
/// None where it could not be read; None of all where the files are no cache.
pub uninterp spec fn paths_of(main: Seq<u8>, subs: Seq<Seq<u8>>) -> Option<
    Seq<Option<Seq<char>>>,
>;

/// What `object` reads of an image of a cache, by its place: its identity, its
/// segments and its symbols. None where the files are no cache, or the image is none.
pub uninterp spec fn image_of(main: Seq<u8>, subs: Seq<Seq<u8>>, k: nat) -> Option<
    (Option<Seq<u8>>, Seq<(Option<Seq<char>>, u64)>, Seq<(u64, bool, Option<Seq<char>>)>),
>;

pub open spec fn string_views(s: Seq<String>) -> Seq<Seq<char>> {
    Seq::new(s.len(), |i: int| s[i]@)
}

pub open spec fn path_views(s: Seq<Option<String>>) -> Seq<Option<Seq<char>>> {
    Seq::new(s.len(), |i: int| chars(s[i]))
}

/// Calls `object::read::macho::DyldCache::subcache_suffixes`, which reads the main
/// file alone, so the result has a name over its bytes.
#[verifier::external_body]
fn suffixes(main: &[u8]) -> (r: Option<Vec<String>>)
    ensures
        match r {
            Some(v) => suffixes_of(main@) == Some(string_views(v@)),
            None => suffixes_of(main@) is None,
        },
{
    DyldCache::<object::Endianness, _>::subcache_suffixes(main).ok()
}

/// Calls `object::read::macho::DyldCache::parse` and `DyldCache::images`, and
/// `DyldCacheImage::path` on each image. They read the files alone, so the result has
/// a name over their bytes.
#[verifier::external_body]
fn image_paths<'a>(main: &'a [u8], subs: &Vec<&'a [u8]>) -> (r: Option<Vec<Option<String>>>)
    ensures
        match r {
            Some(v) => paths_of(main@, sub_bytes(subs@)) == Some(path_views(v@)),
            None => paths_of(main@, sub_bytes(subs@)) is None,
        },
{
    let cache = DyldCache::<object::Endianness, _>::parse(main, subs).ok()?;
    Some(cache.images().map(|i| i.path().ok().map(String::from)).collect())
}

/// Calls `object::read::macho::DyldCacheImage::parse_object` on image `k` of a cache,
/// and hands out the identity, the segments and the symbols of what it gives. It
/// reads the files alone, so the result has a name over their bytes and `k`.
#[verifier::external_body]
fn image<'a>(main: &'a [u8], subs: &Vec<&'a [u8]>, k: usize) -> (r: Option<RawImage>)
    ensures
        match r {
            Some(i) => image_of(main@, sub_bytes(subs@), k as nat) == Some(i@),
            None => image_of(main@, sub_bytes(subs@), k as nat) is None,
        },
{
    let cache = DyldCache::<object::Endianness, _>::parse(main, subs).ok()?;
    let file = cache.images().nth(k)?.parse_object().ok()?;
    let segments = file.segments().map(
        |s| RawSegment { name: s.name().ok().flatten().map(String::from), address: s.address() },
    );
    let symbols = file.symbols().map(
        |s| RawSym {
            address: s.address(),
            is_definition: s.is_definition(),
            name: s.name().ok().map(String::from),
        },
    );
    let uuid = file.mach_uuid().ok().flatten();
    Some(RawImage { uuid, segments: segments.collect(), symbols: symbols.collect() })
}

/// A symbol: how far it stands from the start of the text, and its name.
pub struct Sym {
    pub rel: u64,
    pub name: String,
}

/// The symbols of a library, by their places.
pub struct DyldCacheSyms {
    pub syms: Vec<Sym>,
}

/// A name without the underscore that C names are written with.
pub open spec fn plain_name(name: Option<Seq<char>>) -> Seq<char> {
    match name {
        Some(s) => match text::strip_prefix(s, "_"@) {
            Some(r) => r,
            None => s,
        },
        None => Seq::empty(),
    }
}

/// Whether a symbol is kept: it is defined, in the text or behind it, and has a
/// name.
pub open spec fn kept(s: (u64, bool, Option<Seq<char>>), text_base: u64) -> bool {
    s.1 && s.0 >= text_base && plain_name(s.2).len() > 0
}

/// Whether text `a` comes before `b`: by the first character that differs.
pub open spec fn before(a: Seq<char>, b: Seq<char>) -> bool
    decreases a.len(),
{
    if b.len() == 0 {
        false
    } else if a.len() == 0 {
        true
    } else if a[0] != b[0] {
        (a[0] as int) < (b[0] as int)
    } else {
        before(a.drop_first(), b.drop_first())
    }
}

/// The places ascend: no two symbols share one.
pub open spec fn ascending(s: Seq<Sym>) -> bool {
    forall|i: int, j: int| 0 <= i < j < s.len() ==> (#[trigger] s[i]).rel < (#[trigger] s[j]).rel
}

/// Whether symbol `i` is one of the first `n`, and none of them at its place has a
/// name that comes before.
pub open spec fn is_least(s: Sym, raw: Seq<(u64, bool, Option<Seq<char>>)>, n: nat, text_base: u64) -> bool {
    &&& exists|j: int|
        0 <= j < n && kept(#[trigger] raw[j], text_base) && raw[j].0 - text_base == s.rel
            && plain_name(raw[j].2) == s.name@
    &&& forall|j: int|
        0 <= j < n && kept(#[trigger] raw[j], text_base) && raw[j].0 - text_base == s.rel
            ==> !before(plain_name(raw[j].2), s.name@)
}

/// Whether `syms` are the symbols of the first `n`: each place once, with the least
/// of its names.
pub open spec fn are_symbols(syms: Seq<Sym>, raw: Seq<(u64, bool, Option<Seq<char>>)>, n: nat, text_base: u64) -> bool {
    &&& ascending(syms)
    &&& forall|i: int| 0 <= i < syms.len() ==> is_least(#[trigger] syms[i], raw, n, text_base)
    &&& forall|j: int|
        0 <= j < n && kept(#[trigger] raw[j], text_base) ==> has_place(
            syms,
            (raw[j].0 - text_base) as u64,
        )
}

pub open spec fn has_place(syms: Seq<Sym>, rel: u64) -> bool {
    exists|i: int| 0 <= i < syms.len() && (#[trigger] syms[i]).rel == rel
}

proof fn lemma_not_before_itself(a: Seq<char>)
    ensures
        !before(a, a),
    decreases a.len(),
{
    if a.len() > 0 {
        lemma_not_before_itself(a.drop_first());
    }
}

proof fn lemma_before_transitive(a: Seq<char>, b: Seq<char>, c: Seq<char>)
    requires
        before(a, b),
        before(b, c),
    ensures
        before(a, c),
    decreases a.len(),
{
    if a.len() > 0 && a[0] == b[0] && b[0] == c[0] {
        lemma_before_transitive(a.drop_first(), b.drop_first(), c.drop_first());
    }
}

fn code_point(c: char) -> (u: u32)
    ensures
        u as int == c as int,
{
    c as u32
}

fn comes_before(a: &Vec<char>, b: &Vec<char>) -> (r: bool)
    ensures
        r == before(a@, b@),
{
    let mut i: usize = 0;
    assert(a@.skip(0) =~= a@);
    assert(b@.skip(0) =~= b@);
    while i < a.len() && i < b.len() && a[i] == b[i]
        invariant
            i <= a@.len(),
            i <= b@.len(),
            before(a@.skip(i as int), b@.skip(i as int)) == before(a@, b@),
        decreases a@.len() - i,
    {
        assert(a@.skip(i as int).drop_first() =~= a@.skip(i + 1));
        assert(b@.skip(i as int).drop_first() =~= b@.skip(i + 1));
        i += 1;
    }
    if i >= b.len() {
        return false;
    }
    if i >= a.len() {
        return true;
    }
    code_point(a[i]) < code_point(b[i])
}

/// The name of a symbol.
fn name_of(s: &RawSym) -> (r: Vec<char>)
    ensures
        r@ == plain_name(s@.2),
{
    match &s.name {
        Some(n) => {
            let chars = chars_of(n.as_str());
            match after_prefix(chars.as_slice(), "_") {
                Some(rest) => vstd::slice::slice_to_vec(rest),
                None => chars,
            }
        },
        None => {
            let none: Vec<char> = Vec::new();
            assert(none@ =~= plain_name(s@.2));
            none
        },
    }
}

/// Where the text of a library starts: its first segment of that name.
pub open spec fn text_base(segments: Seq<(Option<Seq<char>>, u64)>) -> Option<u64>
    decreases segments.len(),
{
    if segments.len() == 0 {
        None
    } else if segments[0].0 == Some("__TEXT"@) {
        Some(segments[0].1)
    } else {
        text_base(segments.drop_first())
    }
}

/// Where a path first stands; the length where it does not.
pub open spec fn first_path(paths: Seq<Option<Seq<char>>>, path: Seq<char>) -> nat
    decreases paths.len(),
{
    if paths.len() == 0 || paths[0] == Some(path) {
        0
    } else {
        1 + first_path(paths.drop_first(), path)
    }
}

/// Whether `r` are the symbols of a library under the identity `uuid`.
pub open spec fn are_of_image(
    r: Option<DyldCacheSyms>,
    image: (Option<Seq<u8>>, Seq<(Option<Seq<char>>, u64)>, Seq<(u64, bool, Option<Seq<char>>)>),
    uuid: Seq<u8>,
) -> bool {
    match r {
        Some(d) => image.0 == Some(uuid) && (text_base(image.1) matches Some(base) && {
            &&& d.wf()
            &&& are_symbols(d.syms@, image.2, image.2.len(), base)
            &&& d.syms@.len() > 0
        }),
        None => image.0 != Some(uuid) || match text_base(image.1) {
            Some(base) => forall|j: int|
                0 <= j < image.2.len() ==> !kept(#[trigger] image.2[j], base),
            None => true,
        },
    }
}

/// Whether `r` are the symbols of the library at a path of a cache.
pub open spec fn are_of_cache(
    r: Option<DyldCacheSyms>,
    main: Seq<u8>,
    subs: Seq<Seq<u8>>,
    path: Seq<char>,
    uuid: Seq<u8>,
) -> bool {
    match paths_of(main, subs) {
        None => r is None,
        Some(paths) => {
            let k = first_path(paths, path);
            if k == paths.len() {
                r is None
            } else {
                match image_of(main, subs, k) {
                    None => r is None,
                    Some(image) => are_of_image(r, image, uuid),
                }
            }
        },
    }
}

pub open spec fn are_of_files(
    r: Option<DyldCacheSyms>,
    files: CacheFiles,
    path: Seq<char>,
    uuid: Seq<u8>,
) -> bool {
    are_of_cache(r, files.main@, sub_bytes(files.subs@), path, uuid)
}

/// The paths of the other files of a cache; None where the main one is no cache.
pub fn subcache_paths(main: &[u8], main_path: &str) -> (r: Option<Vec<String>>)
    ensures
        match r {
            Some(v) => suffixes_of(main@) matches Some(s) && v@.len() == s.len() && forall|i: int|
                0 <= i < s.len() ==> (#[trigger] v@[i])@ == main_path@ + s[i],
            None => suffixes_of(main@) is None,
        },
{
    match suffixes(main) {
        Some(s) => Some(with_suffixes(main_path, &s)),
        None => None,
    }
}

/// A path with each of the suffixes.
pub fn with_suffixes(main_path: &str, suffixes: &Vec<String>) -> (r: Vec<String>)
    ensures
        r@.len() == suffixes@.len(),
        forall|i: int|
            0 <= i < suffixes@.len() ==> (#[trigger] r@[i])@ == main_path@ + suffixes@[i]@,
{
    let mut r: Vec<String> = Vec::new();
    let mut i: usize = 0;
    while i < suffixes.len()
        invariant
            i <= suffixes@.len(),
            r@.len() == i,
            forall|j: int| 0 <= j < i ==> (#[trigger] r@[j])@ == main_path@ + suffixes@[j]@,
        decreases suffixes@.len() - i,
    {
        let mut v = chars_of(main_path);
        let mut t = chars_of(suffixes[i].as_str());
        v.append(&mut t);
        r.push(string_of(v.as_slice()));
        i += 1;
    }
    r
}

fn is_text(name: &Option<String>) -> (r: bool)
    ensures
        r == (chars(*name) == Some("__TEXT"@)),
{
    match name {
        Some(n) => same_chars(chars_of(n.as_str()).as_slice(), chars_of("__TEXT").as_slice()),
        None => false,
    }
}

fn text_base_of(segments: &Vec<RawSegment>) -> (r: Option<u64>)
    ensures
        r == text_base(segment_views(segments@)),
{
    let ghost views = segment_views(segments@);
    let mut i: usize = 0;
    assert(views.skip(0) =~= views);
    while i < segments.len()
        invariant
            i <= segments@.len(),
            views == segment_views(segments@),
            text_base(views.skip(i as int)) == text_base(views),
        decreases segments@.len() - i,
    {
        assert(views.skip(i as int)[0] == views[i as int]);
        assert(views.skip(i as int).drop_first() =~= views.skip(i + 1));
        if is_text(&segments[i].name) {
            return Some(segments[i].address);
        }
        i += 1;
    }
    None
}

fn place_of(paths: &Vec<Option<String>>, path: &str) -> (k: usize)
    ensures
        k == first_path(path_views(paths@), path@),
        k <= paths@.len(),
{
    let ghost views = path_views(paths@);
    let wanted = chars_of(path);
    let mut i: usize = 0;
    assert(views.skip(0) =~= views);
    while i < paths.len()
        invariant
            i <= paths@.len(),
            views == path_views(paths@),
            wanted@ == path@,
            i + first_path(views.skip(i as int), path@) == first_path(views, path@),
        decreases paths@.len() - i,
    {
        assert(views.skip(i as int)[0] == views[i as int]);
        assert(views.skip(i as int).drop_first() =~= views.skip(i + 1));
        if let Some(p) = &paths[i] {
            if same_chars(chars_of(p.as_str()).as_slice(), wanted.as_slice()) {
                return i;
            }
        }
        i += 1;
    }
    i
}

/// Where the first symbol at or behind a place stands.
fn lower_bound(syms: &Vec<Sym>, rel: u64) -> (k: usize)
    requires
        ascending(syms@),
    ensures
        k <= syms@.len(),
        forall|i: int| 0 <= i < k ==> (#[trigger] syms@[i]).rel < rel,
        forall|i: int| k <= i < syms@.len() ==> (#[trigger] syms@[i]).rel >= rel,
{
    let mut lo: usize = 0;
    let mut hi: usize = syms.len();
    while lo < hi
        invariant
            ascending(syms@),
            lo <= hi <= syms@.len(),
            forall|i: int| 0 <= i < lo ==> (#[trigger] syms@[i]).rel < rel,
            forall|i: int| hi <= i < syms@.len() ==> (#[trigger] syms@[i]).rel >= rel,
        decreases hi - lo,
    {
        let mid: usize = lo + (hi - lo) / 2;
        if syms[mid].rel < rel {
            lo = mid + 1;
        } else {
            hi = mid;
        }
    }
    lo
}

impl DyldCacheSyms {
    pub open spec fn wf(self) -> bool {
        ascending(self.syms@)
    }

    /// The symbols of a library, where it has the identity `uuid`. None where it has
    /// another, no text, or no symbols.
    pub fn of_image(image: &RawImage, uuid: [u8; 16]) -> (r: Option<DyldCacheSyms>)
        ensures
            are_of_image(r, image@, uuid@),
    {
        let same: bool = match image.uuid {
            Some(u) => same_bytes(u.as_slice(), uuid.as_slice()),
            None => false,
        };
        if !same {
            return None;
        }
        let base: u64 = match text_base_of(&image.segments) {
            Some(b) => b,
            None => {
                return None;
            },
        };
        let raw = &image.symbols;
        let ghost views = symbol_views(raw@);
        let mut syms: Vec<Sym> = Vec::new();
        let mut i: usize = 0;
        while i < raw.len()
            invariant
                i <= raw@.len(),
                views == symbol_views(raw@),
                are_symbols(syms@, views, i as nat, base),
            decreases raw@.len() - i,
        {
            let s = &raw[i];
            let name = name_of(s);
            if s.is_definition && s.address >= base && name.len() > 0 {
                add_symbol(&mut syms, s.address - base, name, raw, i, base);
            } else {
                proof {
                    lemma_passed_over(syms@, views, i as nat, base);
                }
            }
            i += 1;
        }
        if syms.len() == 0 {
            assert forall|j: int| 0 <= j < views.len() implies !kept(#[trigger] views[j], base) by {
                if kept(views[j], base) {
                    assert(has_place(syms@, (views[j].0 - base) as u64));
                }
            }
            return None;
        }
        Some(DyldCacheSyms { syms })
    }

    /// The symbols of the library at a path, in one cache: of the first image with
    /// that path. None where there is none, or it has none under the identity `uuid`.
    pub fn from_cache_file(files: &CacheFiles, dylib_path: &str, uuid: [u8; 16]) -> (r: Option<
        DyldCacheSyms,
    >)
        ensures
            are_of_cache(r, files.main@, sub_bytes(files.subs@), dylib_path@, uuid@),
    {
        let paths = match image_paths(files.main, &files.subs) {
            Some(p) => p,
            None => {
                return None;
            },
        };
        let k: usize = place_of(&paths, dylib_path);
        if k == paths.len() {
            return None;
        }
        match image(files.main, &files.subs, k) {
            Some(i) => Self::of_image(&i, uuid),
            None => None,
        }
    }

    /// The symbols of the library at a path: from the first of the caches that has
    /// the library with the identity `uuid`.
    pub fn for_dylib(caches: &Vec<CacheFiles>, dylib_path: &str, uuid: [u8; 16]) -> (r: Option<
        DyldCacheSyms,
    >)
        ensures
            match r {
                Some(d) => exists|k: int|
                    0 <= k < caches@.len() && are_of_files(
                        r,
                        #[trigger] caches@[k],
                        dylib_path@,
                        uuid@,
                    ) && forall|j: int|
                        0 <= j < k ==> are_of_files(None, #[trigger] caches@[j], dylib_path@, uuid@),
                None => forall|j: int|
                    0 <= j < caches@.len() ==> are_of_files(
                        None,
                        #[trigger] caches@[j],
                        dylib_path@,
                        uuid@,
                    ),
            },
            r matches Some(d) ==> d.wf() && d.syms@.len() > 0,
    {
        let mut i: usize = 0;
        while i < caches.len()
            invariant
                i <= caches@.len(),
                forall|j: int|
                    0 <= j < i ==> are_of_files(None, #[trigger] caches@[j], dylib_path@, uuid@),
            decreases caches@.len() - i,
        {
            let r = Self::from_cache_file(&caches[i], dylib_path, uuid);
            assert(are_of_files(r, caches@[i as int], dylib_path@, uuid@));
            if r.is_some() {
                return r;
            }
            i += 1;
        }
        None
    }

    pub fn len(&self) -> (n: usize)
        ensures
            n == self.syms@.len(),
    {
        self.syms.len()
    }

    pub fn is_empty(&self) -> (r: bool)
        ensures
            r == (self.syms@.len() == 0),
    {
        self.syms.len() == 0
    }

    /// The function at a place, and how far in it the place is: the last symbol at
    /// or before it. A symbol has no size, so it runs up to the next; the last one
    /// up to the last place but one.
    pub fn resolve(&self, rel: u64) -> (r: Option<(&str, u64)>)
        requires
            self.wf(),
        ensures
            match r {
                Some((name, off)) => exists|i: int|
                    0 <= i < self.syms@.len() && covers(self.syms@, i, rel) && name@ == (
                    #[trigger] self.syms@[i]).name@ && off == rel - self.syms@[i].rel,
                None => forall|i: int|
                    0 <= i < self.syms@.len() ==> !covers(self.syms@, i, rel),
            },
    {
        let mut k: usize = lower_bound(&self.syms, rel);
        if k < self.syms.len() && self.syms[k].rel == rel {
            k += 1;
        }
        if k == 0 {
            return None;
        }
        let idx: usize = k - 1;
        let end: u64 = if k < self.syms.len() {
            self.syms[k].rel
        } else {
            u64::MAX
        };
        if rel < end {
            assert(covers(self.syms@, idx as int, rel));
            Some((self.syms[idx].name.as_str(), rel - self.syms[idx].rel))
        } else {
            None
        }
    }
}

/// Whether symbol `i` reaches over a place.
pub open spec fn covers(syms: Seq<Sym>, i: int, rel: u64) -> bool {
    syms[i].rel <= rel && rel < (if i + 1 < syms.len() {
        syms[i + 1].rel
    } else {
        u64::MAX
    })
}

/// A place is covered by one symbol at most.
pub proof fn lemma_one_symbol_covers(syms: Seq<Sym>, i: int, j: int, rel: u64)
    requires
        ascending(syms),
        0 <= i < syms.len(),
        0 <= j < syms.len(),
        covers(syms, i, rel),
        covers(syms, j, rel),
    ensures
        i == j,
{
    if i < j {
        assert(i + 1 == j || syms[i + 1].rel < syms[j].rel);
    } else if j < i {
        assert(j + 1 == i || syms[j + 1].rel < syms[i].rel);
    }
}

proof fn lemma_passed_over(syms: Seq<Sym>, raw: Seq<(u64, bool, Option<Seq<char>>)>, n: nat, base: u64)
    requires
        n < raw.len(),
        are_symbols(syms, raw, n, base),
        !kept(raw[n as int], base),
    ensures
        are_symbols(syms, raw, n + 1, base),
{
    assert forall|i: int| 0 <= i < syms.len() implies is_least(
        #[trigger] syms[i],
        raw,
        n + 1,
        base,
    ) by {
        assert(is_least(syms[i], raw, n, base));
    }
}

/// Add a symbol: at its place, where that is free; else its name counts where it
/// comes before the one that is there.
fn add_symbol(
    syms: &mut Vec<Sym>,
    rel: u64,
    name: Vec<char>,
    raw: &Vec<RawSym>,
    n: usize,
    base: u64,
)
    requires
        n < raw@.len(),
        are_symbols(old(syms)@, symbol_views(raw@), n as nat, base),
        kept(raw@[n as int]@, base),
        raw@[n as int].address - base == rel,
        plain_name(raw@[n as int]@.2) == name@,
    ensures
        are_symbols(final(syms)@, symbol_views(raw@), n as nat + 1, base),
{
    let ghost views = symbol_views(raw@);
    assert(views[n as int] == raw@[n as int]@);
    let ghost s0 = syms@;
    let k: usize = lower_bound(syms, rel);
    let taken: bool = k < syms.len() && syms[k].rel == rel;
    if !taken {
        let x = Sym { rel, name: string_of(name.as_slice()) };
        let ghost xv = x;
        syms.insert(k, x);
        proof {
            lemma_inserted(s0, views, n as nat, base, k as int, xv);
        }
        return;
    }
    let held = chars_of(syms[k].name.as_str());
    if comes_before(&name, &held) {
        let x = Sym { rel, name: string_of(name.as_slice()) };
        let ghost xv = x;
        syms.set(k, x);
        proof {
            lemma_replaced(s0, views, n as nat, base, k as int, xv);
        }
    } else {
        proof {
            lemma_stays(s0, views, n as nat, base, k as int);
        }
    }
}

proof fn lemma_inserted(s0: Seq<Sym>, raw: Seq<(u64, bool, Option<Seq<char>>)>, n: nat, base: u64, k: int, x: Sym)
    requires
        n < raw.len(),
        are_symbols(s0, raw, n, base),
        0 <= k <= s0.len(),
        forall|i: int| 0 <= i < k ==> (#[trigger] s0[i]).rel < x.rel,
        forall|i: int| k <= i < s0.len() ==> (#[trigger] s0[i]).rel > x.rel,
        kept(raw[n as int], base),
        raw[n as int].0 - base == x.rel,
        plain_name(raw[n as int].2) == x.name@,
    ensures
        are_symbols(s0.insert(k, x), raw, n + 1, base),
{
    let t = s0.insert(k, x);
    assert forall|i: int| 0 <= i < t.len() implies is_least(#[trigger] t[i], raw, n + 1, base) by {
        if i == k {
            assert forall|j: int|
                0 <= j < n + 1 && kept(#[trigger] raw[j], base) && raw[j].0 - base
                    == x.rel implies !before(plain_name(raw[j].2), x.name@) by {
                if j < n {
                    assert(has_place(s0, (raw[j].0 - base) as u64));
                    let m = choose|m: int| 0 <= m < s0.len() && (#[trigger] s0[m]).rel == x.rel;
                    assert(s0[m].rel == x.rel);
                } else {
                    lemma_not_before_itself(x.name@);
                }
            }
            assert(kept(raw[n as int], base));
        } else {
            let o = if i < k {
                i
            } else {
                i - 1
            };
            assert(t[i] == s0[o]);
            assert(is_least(s0[o], raw, n, base));
        }
    }
    assert forall|j: int| 0 <= j < n + 1 && kept(#[trigger] raw[j], base) implies has_place(
        t,
        (raw[j].0 - base) as u64,
    ) by {
        if j < n {
            assert(has_place(s0, (raw[j].0 - base) as u64));
            let m = choose|m: int|
                0 <= m < s0.len() && (#[trigger] s0[m]).rel == (raw[j].0 - base) as u64;
            if m < k {
                assert(t[m] == s0[m]);
            } else {
                assert(t[m + 1] == s0[m]);
            }
        } else {
            assert(t[k] == x);
        }
    }
    assert forall|i: int, j: int| 0 <= i < j < t.len() implies (#[trigger] t[i]).rel < (
    #[trigger] t[j]).rel by {
        if i < k {
            assert(t[i] == s0[i]);
        } else if i > k {
            assert(t[i] == s0[i - 1]);
        }
        if j < k {
            assert(t[j] == s0[j]);
        } else if j > k {
            assert(t[j] == s0[j - 1]);
        }
    }
}

proof fn lemma_replaced(s0: Seq<Sym>, raw: Seq<(u64, bool, Option<Seq<char>>)>, n: nat, base: u64, k: int, x: Sym)
    requires
        n < raw.len(),
        are_symbols(s0, raw, n, base),
        0 <= k < s0.len(),
        s0[k].rel == x.rel,
        kept(raw[n as int], base),
        raw[n as int].0 - base == x.rel,
        plain_name(raw[n as int].2) == x.name@,
        before(x.name@, s0[k].name@),
    ensures
        are_symbols(s0.update(k, x), raw, n + 1, base),
{
    let t = s0.update(k, x);
    assert(is_least(s0[k], raw, n, base));
    assert forall|i: int| 0 <= i < t.len() implies is_least(#[trigger] t[i], raw, n + 1, base) by {
        if i == k {
            assert forall|j: int|
                0 <= j < n + 1 && kept(#[trigger] raw[j], base) && raw[j].0 - base
                    == x.rel implies !before(plain_name(raw[j].2), x.name@) by {
                if j < n {
                    if before(plain_name(raw[j].2), x.name@) {
                        lemma_before_transitive(
                            plain_name(raw[j].2),
                            x.name@,
                            s0[k].name@,
                        );
                    }
                } else {
                    lemma_not_before_itself(x.name@);
                }
            }
            assert(kept(raw[n as int], base));
        } else {
            assert(t[i] == s0[i]);
            assert(is_least(s0[i], raw, n, base));
            assert(s0[i].rel != s0[k].rel);
        }
    }
    assert forall|j: int| 0 <= j < n + 1 && kept(#[trigger] raw[j], base) implies has_place(
        t,
        (raw[j].0 - base) as u64,
    ) by {
        if j < n {
            assert(has_place(s0, (raw[j].0 - base) as u64));
            let m = choose|m: int|
                0 <= m < s0.len() && (#[trigger] s0[m]).rel == (raw[j].0 - base) as u64;
            assert(t[m].rel == s0[m].rel);
        } else {
            assert(t[k] == x);
        }
    }
    assert forall|i: int, j: int| 0 <= i < j < t.len() implies (#[trigger] t[i]).rel < (
    #[trigger] t[j]).rel by {
        assert(t[i].rel == s0[i].rel);
        assert(t[j].rel == s0[j].rel);
    }
}

proof fn lemma_stays(s0: Seq<Sym>, raw: Seq<(u64, bool, Option<Seq<char>>)>, n: nat, base: u64, k: int)
    requires
        n < raw.len(),
        are_symbols(s0, raw, n, base),
        0 <= k < s0.len(),
        kept(raw[n as int], base),
        raw[n as int].0 - base == s0[k].rel,
        !before(plain_name(raw[n as int].2), s0[k].name@),
    ensures
        are_symbols(s0, raw, n + 1, base),
{
    assert forall|i: int| 0 <= i < s0.len() implies is_least(#[trigger] s0[i], raw, n + 1, base) by {
        assert(is_least(s0[i], raw, n, base));
        if i != k {
            assert(s0[i].rel != s0[k].rel);
        }
    }
    assert forall|j: int| 0 <= j < n + 1 && kept(#[trigger] raw[j], base) implies has_place(
        s0,
        (raw[j].0 - base) as u64,
    ) by {
        if j == n {
            assert(s0[k].rel == raw[j].0 - base);
        }
    }
}

/// Of two names one comes before the other, or they are one name: so the least of a
/// place's names is one.
pub proof fn lemma_least_is_one(a: Seq<char>, b: Seq<char>)
    requires
        !before(a, b),
        !before(b, a),
    ensures
        a == b,
    decreases a.len(),
{
    if a.len() > 0 && b.len() > 0 {
        assert(a[0] == b[0]);
        lemma_least_is_one(a.drop_first(), b.drop_first());
        assert(a =~= seq![a[0]] + a.drop_first());
        assert(b =~= seq![b[0]] + b.drop_first());
    } else {
        assert(a =~= b);
    }
}

/// The text of a library starts at the first segment of that name.
pub proof fn lemma_text_base_is_first(segments: Seq<(Option<Seq<char>>, u64)>, k: int)
    requires
        0 <= k < segments.len(),
        segments[k].0 == Some("__TEXT"@),
        forall|i: int| 0 <= i < k ==> (#[trigger] segments[i]).0 != Some("__TEXT"@),
    ensures
        text_base(segments) == Some(segments[k].1),
    decreases segments.len(),
{
    if k > 0 {
        assert(segments[0].0 != Some("__TEXT"@));
        let rest = segments.drop_first();
        assert forall|i: int| 0 <= i < k - 1 implies (#[trigger] rest[i]).0 != Some("__TEXT"@) by {
            assert(rest[i] == segments[i + 1]);
        }
        lemma_text_base_is_first(rest, k - 1);
    }
}

/// A library is the first that stands under its path.
pub proof fn lemma_path_is_first(paths: Seq<Option<Seq<char>>>, path: Seq<char>)
    ensures
        first_path(paths, path) <= paths.len(),
        first_path(paths, path) < paths.len() ==> paths[first_path(paths, path) as int] == Some(
            path,
        ),
        forall|i: int| 0 <= i < first_path(paths, path) ==> #[trigger] paths[i] != Some(path),
    decreases paths.len(),
{
    if paths.len() > 0 && paths[0] != Some(path) {
        let rest = paths.drop_first();
        lemma_path_is_first(rest, path);
        assert forall|i: int| 0 <= i < first_path(paths, path) implies #[trigger] paths[i] != Some(
            path,
        ) by {
            if i > 0 {
                assert(paths[i] == rest[i - 1]);
            }
        }
    }
}

/// A symbol's name loses one underscore at its front, and nothing else.
pub proof fn lemma_plain_name(name: Seq<char>)
    ensures
        name.len() > 0 && name[0] == '_' ==> plain_name(Some(name)) == name.skip(1),
        name.len() == 0 || name[0] != '_' ==> plain_name(Some(name)) == name,
        plain_name(None).len() == 0,
{
    reveal_strlit("_");
    if name.len() > 0 && name[0] == '_' {
        assert(name.take(1) =~= "_"@);
    } else if name.len() > 0 {
        assert(name.take(1)[0] == name[0]);
    }
}

/// Which symbols are kept: none that is only referred to, none before the text, and none
/// without a name; all others are.
pub proof fn lemma_kept(address: u64, defined: bool, name: Seq<char>, base: u64)
    ensures
        kept((address, false, Some(name)), base) == false,
        kept((address, defined, None), base) == false,
        address < base ==> !kept((address, defined, Some(name)), base),
        defined && address >= base && name.len() > 0 && name[0] != '_' ==> kept(
            (address, defined, Some(name)),
            base,
        ),
        defined && address >= base && name.len() > 1 ==> kept((address, defined, Some(name)), base),
        name.len() == 0 || name == seq!['_'] ==> !kept((address, defined, Some(name)), base),
{
    lemma_plain_name(name);
}

/// Of two names the one comes before the other that has the lower character where they
/// first differ, or that ends there.
pub proof fn lemma_before_by_first_difference(head: Seq<char>, a: Seq<char>, b: Seq<char>)
    requires
        b.len() > 0,
        a.len() == 0 || (a[0] as int) < (b[0] as int),
    ensures
        before(head + a, head + b),
        !before(head + b, head + a),
    decreases head.len(),
{
    if head.len() == 0 {
        assert(head + a =~= a);
        assert(head + b =~= b);
    } else {
        let t = head.drop_first();
        lemma_before_by_first_difference(t, a, b);
        assert((head + a).drop_first() =~= t + a);
        assert((head + b).drop_first() =~= t + b);
    }
}

} // verus!
