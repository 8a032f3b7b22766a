//! The module files that a recording sampled. The registry settles each module's
//! build id once, so that every observer of a module agrees on it, and decides
//! which files to hold open so that a binary that is deleted or rebuilt while
//! recording can still be read.
//!
//! Held files are told apart by device and inode, so a library that many
//! processes map is held once. The registry keeps those pairs; who opens a file
//! keeps the descriptor for as long as the registry lists its pair.

use crate::assoc;
use crate::bytes::same_bytes;
use crate::intern;
use crate::text;
use crate::text::{after_prefix, chars_of};
use vstd::prelude::*;
use vstd::slice::slice_to_vec;
use vstd::string::*;

verus! {

/// The most files that a recording holds. A miss only loses the retained bytes;
/// the identity in the trace stays.
pub const DEFAULT_FD_CAP: usize = 1024;

/// Which sampled module files to hold open.
#[derive(Clone, Copy, PartialEq, Eq, Structural, Debug)]
pub enum KeepPolicy {
    /// No file: every module is opened by path when it is symbolized.
    Nothing,
    /// Those on unstable paths.
    Auto,
    /// All of them, up to the registry's limit.
    All,
}

impl KeepPolicy {
    /// The policy of a name.
    pub fn parse(s: &str) -> (r: Option<KeepPolicy>)
        ensures
            r == (if s@ == "none"@ {
                Some(KeepPolicy::Nothing)
            } else if s@ == "auto"@ {
                Some(KeepPolicy::Auto)
            } else if s@ == "all"@ {
                Some(KeepPolicy::All)
            } else {
                None
            }),
    {
        let name = s.to_owned();
        if name == "none".to_owned() {
            Some(KeepPolicy::Nothing)
        } else if name == "auto".to_owned() {
            Some(KeepPolicy::Auto)
        } else if name == "all".to_owned() {
            Some(KeepPolicy::All)
        } else {
            None
        }
    }
}

/// The system whose paths are judged.
#[derive(Clone, Copy, PartialEq, Eq, Structural, Debug)]
pub enum Platform {
    Linux,
    Macos,
}

/// Whether `path` starts with `prefix`.
pub open spec fn under(path: Seq<char>, prefix: Seq<char>) -> bool {
    text::strip_prefix(path, prefix) is Some
}

/// The trees that an installer manages: their files are replaced as a whole and
/// not rewritten under a running process.
pub open spec fn stable(path: Seq<char>, platform: Platform) -> bool {
    ||| under(path, "/usr/"@)
    ||| under(path, "/bin/"@)
    ||| under(path, "/sbin/"@)
    ||| under(path, "/opt/"@)
    ||| match platform {
        Platform::Linux => under(path, "/lib/"@) || under(path, "/lib64/"@),
        Platform::Macos => under(path, "/System/"@) || under(path, "/Library/"@) || under(
            path,
            "/Applications/"@,
        ),
    }
}

/// Whether a path is outside the trees that an installer manages.
pub fn is_unstable(path: &str, platform: Platform) -> (r: bool)
    ensures
        r == !stable(path@, platform),
{
    let chars = chars_of(path);
    let p = chars.as_slice();
    if after_prefix(p, "/usr/").is_some() || after_prefix(p, "/bin/").is_some() || after_prefix(
        p,
        "/sbin/",
    ).is_some() || after_prefix(p, "/opt/").is_some() {
        return false;
    }
    match platform {
        Platform::Linux => !(after_prefix(p, "/lib/").is_some() || after_prefix(
            p,
            "/lib64/",
        ).is_some()),
        Platform::Macos => !(after_prefix(p, "/System/").is_some() || after_prefix(
            p,
            "/Library/",
        ).is_some() || after_prefix(p, "/Applications/").is_some()),
    }
}

/// FNV-1a, 64 bit.
pub open spec fn fnv1a(s: Seq<u8>) -> u64
    decreases s.len(),
{
    if s.len() == 0 {
        0xcbf2_9ce4_8422_2325
    } else {
        vstd::wrapping::u64_specs::wrapping_mul(
            fnv1a(s.drop_last()) ^ (s.last() as u64),
            0x0000_0100_0000_01b3,
        )
    }
}

/// FNV-1a of a path.
pub fn path_hash(path: &str) -> (h: u64)
    ensures
        h == fnv1a(path.spec_bytes()),
{
    let b = path.as_bytes();
    let mut h: u64 = 0xcbf2_9ce4_8422_2325;
    let mut i: usize = 0;
    assert(b@.take(0) =~= Seq::empty());
    while i < b.len()
        invariant
            i <= b@.len(),
            h == fnv1a(b@.take(i as int)),
        decreases b@.len() - i,
    {
        assert(b@.take(i + 1).drop_last() =~= b@.take(i as int));
        h = h ^ (b[i] as u64);
        h = h.wrapping_mul(0x0000_0100_0000_01b3);
        i += 1;
    }
    assert(b@.take(i as int) =~= b@);
    h
}

/// How a capture names a module. A capture has to use the same key each time it
/// reaches the same module.
#[derive(Clone, Copy, PartialEq, Eq, Structural, Hash, Debug)]
pub enum ModuleKey {
    /// A mapping of a process, with the file that the kernel reports for it. The
    /// inode keeps a later module at a reused base from being taken for the
    /// earlier one.
    Mapping { pid: u32, base: u64, dev_major: u32, dev_minor: u32, ino: u64 },
    /// A file, for captures that list images by path.
    File { dev: u64, ino: u64 },
}

impl ModuleKey {
    /// The key of a file: its device and inode, or a hash of its path where it is
    /// gone.
    pub fn for_file(path: &str, meta: Option<(u64, u64)>) -> (k: ModuleKey)
        ensures
            k == (match meta {
                Some((dev, ino)) => ModuleKey::File { dev, ino },
                None => ModuleKey::File { dev: 0, ino: fnv1a(path.spec_bytes()) },
            }),
    {
        match meta {
            Some((dev, ino)) => ModuleKey::File { dev, ino },
            None => ModuleKey::File { dev: 0, ino: path_hash(path) },
        }
    }
}

/// The major number of a Linux device number: its bits 8 to 19, then 44 to 63.
pub open spec fn major_of(dev: u64) -> u32 {
    (dev / 0x100 % 0x1000 + dev / 0x1000_0000_0000 * 0x1000) as u32
}

/// The minor number of a Linux device number: its bits 0 to 7, then 20 to 43.
pub open spec fn minor_of(dev: u64) -> u32 {
    (dev % 0x100 + dev / 0x10_0000 % 0x100_0000 * 0x100) as u32
}

/// The major number of a Linux device number.
pub fn device_major(dev: u64) -> (r: u32)
    ensures
        r == major_of(dev),
{
    (dev / 0x100 % 0x1000 + dev / 0x1000_0000_0000 * 0x1000) as u32
}

/// The minor number of a Linux device number.
pub fn device_minor(dev: u64) -> (r: u32)
    ensures
        r == minor_of(dev),
{
    (dev % 0x100 + dev / 0x10_0000 % 0x100_0000 * 0x100) as u32
}

/// What is known of a module.
pub struct Entry {
    /// The build id that the trace carries.
    pub build_id: Vec<u8>,
    /// Further real ids that were verified against the held file.
    pub aliases: Vec<Vec<u8>>,
    /// The device and inode of the held file.
    pub inode: Option<(u64, u64)>,
    /// Whether holding was settled: it succeeded, or the policy declines it. A
    /// file that could not be opened or verified leaves it open.
    pub pin_done: bool,
}

/// What is known of a module, as plain values.
#[verifier::ext_equal]
pub struct EntryView {
    pub build_id: Seq<u8>,
    pub aliases: Seq<Seq<u8>>,
    pub inode: Option<(u64, u64)>,
    pub pin_done: bool,
}

impl View for Entry {
    type V = EntryView;

    open spec fn view(&self) -> EntryView {
        EntryView {
            build_id: self.build_id@,
            aliases: intern::rows(self.aliases@),
            inode: self.inode,
            pin_done: self.pin_done,
        }
    }
}

/// The registry as plain values: the modules by key, the held files, and the
/// first display path of each id.
#[verifier::ext_equal]
pub struct RegistryView {
    pub entries: Map<ModuleKey, EntryView>,
    pub fds: Seq<(u64, u64)>,
    pub paths: Map<Seq<u8>, Seq<char>>,
}

/// The modules of one recording.
pub struct ModuleRegistry {
    pub policy: KeepPolicy,
    pub platform: Platform,
    pub entries: Vec<(ModuleKey, Entry)>,
    pub fds: Vec<(u64, u64)>,
    pub rng: u64,
    pub fd_cap: usize,
    pub paths_by_id: Vec<(Vec<u8>, String)>,
}

pub open spec fn entry_pairs(s: Seq<(ModuleKey, Entry)>) -> Seq<(ModuleKey, EntryView)> {
    Seq::new(s.len(), |i: int| (s[i].0, s[i].1@))
}

pub open spec fn path_pairs(s: Seq<(Vec<u8>, String)>) -> Seq<(Seq<u8>, Seq<char>)> {
    Seq::new(s.len(), |i: int| (s[i].0@, s[i].1@))
}

impl View for ModuleRegistry {
    type V = RegistryView;

    open spec fn view(&self) -> RegistryView {
        RegistryView {
            entries: assoc::as_map(entry_pairs(self.entries@)),
            fds: self.fds@,
            paths: assoc::as_map(path_pairs(self.paths_by_id@)),
        }
    }
}

/// Whether the policy holds the file of `path`.
pub open spec fn holds(policy: KeepPolicy, platform: Platform, path: Seq<char>) -> bool {
    match policy {
        KeepPolicy::All => true,
        KeepPolicy::Auto => !stable(path, platform),
        KeepPolicy::Nothing => false,
    }
}

/// The modules once `key` is settled: as they are where it is known, else with a
/// new one whose id is the hint, or `synthetic` where that is empty.
pub open spec fn settled(
    entries: Map<ModuleKey, EntryView>,
    key: ModuleKey,
    hint: Seq<u8>,
    synthetic: Seq<u8>,
) -> Map<ModuleKey, EntryView> {
    if entries.dom().contains(key) {
        entries
    } else {
        entries.insert(
            key,
            EntryView {
                build_id: if hint.len() > 0 {
                    hint
                } else {
                    synthetic
                },
                aliases: Seq::empty(),
                inode: None,
                pin_done: false,
            },
        )
    }
}

/// `paths` with `id` leading to `path`, unless it already leads somewhere.
pub open spec fn noted(paths: Map<Seq<u8>, Seq<char>>, id: Seq<u8>, path: Seq<char>) -> Map<
    Seq<u8>,
    Seq<char>,
> {
    if paths.dom().contains(id) {
        paths
    } else {
        paths.insert(id, path)
    }
}

/// The display paths once a module is registered under `path`.
pub open spec fn noted_paths(
    paths: Map<Seq<u8>, Seq<char>>,
    build_id: Seq<u8>,
    hint: Seq<u8>,
    path: Seq<char>,
    exact: bool,
) -> Map<Seq<u8>, Seq<char>> {
    if path.len() == 0 {
        paths
    } else if exact && hint.len() > 0 {
        noted(noted(paths, build_id, path), hint, path)
    } else {
        noted(paths, build_id, path)
    }
}

/// Whether `hint` is a real id that the module does not answer to yet.
pub open spec fn lacks_alias(e: EntryView, hint: Seq<u8>) -> bool {
    hint.len() > 0 && hint != e.build_id && !e.aliases.contains(hint)
}

/// Whether the module's file is still to be looked at.
pub open spec fn unsettled(e: EntryView, hint: Seq<u8>, exact: bool) -> bool {
    !e.pin_done || (exact && lacks_alias(e, hint))
}

/// A file that was opened for a module.
#[derive(Clone, Copy, PartialEq, Eq, Structural, Debug)]
pub struct OpenedFile {
    pub dev: u64,
    pub ino: u64,
}

/// Whether an opened file is the one that the key's mapping maps.
pub open spec fn same_mapping(key: ModuleKey, f: OpenedFile) -> bool {
    match key {
        ModuleKey::Mapping { pid, base, dev_major, dev_minor, ino } => {
            &&& major_of(f.dev) == dev_major
            &&& minor_of(f.dev) == dev_minor
            &&& f.ino == ino
        },
        ModuleKey::File { dev, ino } => true,
    }
}

/// Whether an opened file passes: it is the mapped one, where that is asked for,
/// and carries the id `hint`, where that is asked for and there is one.
pub open spec fn passes(
    key: ModuleKey,
    hint: Seq<u8>,
    f: OpenedFile,
    verify_mapping: bool,
    verify_elf_id: bool,
    elf_id: Option<Seq<u8>>,
) -> bool {
    &&& verify_mapping ==> same_mapping(key, f)
    &&& verify_elf_id && hint.len() > 0 ==> elf_id == Some(hint)
}

/// The pair that an opened file is held under; None where there is no file, it
/// does not pass, or the limit is reached.
pub open spec fn pinned(
    fds: Seq<(u64, u64)>,
    cap: nat,
    opened: Option<OpenedFile>,
    passed: bool,
) -> Option<(u64, u64)> {
    match opened {
        Some(f) => if passed && (fds.contains((f.dev, f.ino)) || fds.len() < cap) {
            Some((f.dev, f.ino))
        } else {
            None
        },
        None => None,
    }
}

/// A module after an attempt to hold its file. A file that was held before stays
/// where the attempt failed; a verified new id becomes an alias.
pub open spec fn after_pin(e: EntryView, hint: Seq<u8>, exact: bool, inode: Option<(u64, u64)>) -> EntryView {
    EntryView {
        build_id: e.build_id,
        aliases: if inode is Some && exact && lacks_alias(e, hint) {
            e.aliases.push(hint)
        } else {
            e.aliases
        },
        inode: if inode is Some {
            inode
        } else {
            e.inode
        },
        pin_done: e.pin_done || inode is Some,
    }
}

/// The outcome of the first half of a registration.
pub struct Registration {
    pub build_id: Vec<u8>,
    /// Whether the module's file is to be opened and handed to
    /// [`ModuleRegistry::register_opened`].
    pub open: bool,
}

impl ModuleRegistry {
    /// The held files differ and are within the limit, and every module's held
    /// file is among them.
    pub open spec fn wf(self) -> bool {
        &&& assoc::distinct_keys(entry_pairs(self.entries@))
        &&& assoc::distinct_keys(path_pairs(self.paths_by_id@))
        &&& self.fds@.no_duplicates()
        &&& self.fds@.len() <= self.fd_cap
        &&& forall|k: ModuleKey| #[trigger]
            self@.entries.dom().contains(k) ==> (self@.entries[k].inode matches Some(p)
                ==> self.fds@.contains(p))
    }

    /// What stays as it is.
    pub open spec fn same_settings(self, other: Self) -> bool {
        &&& self.policy == other.policy
        &&& self.platform == other.platform
        &&& self.fd_cap == other.fd_cap
    }

    pub fn new(policy: KeepPolicy, platform: Platform, seed: u64) -> (r: ModuleRegistry)
        ensures
            r.wf(),
            r.policy == policy,
            r.platform == platform,
            r.rng == seed,
            r.fd_cap == DEFAULT_FD_CAP,
            r@ == (RegistryView { entries: Map::empty(), fds: Seq::empty(), paths: Map::empty() }),
    {
        let r = ModuleRegistry {
            policy,
            platform,
            entries: Vec::new(),
            fds: Vec::new(),
            rng: seed,
            fd_cap: DEFAULT_FD_CAP,
            paths_by_id: Vec::new(),
        };
        proof {
            assoc::lemma_empty(entry_pairs(r.entries@));
            assoc::lemma_empty(path_pairs(r.paths_by_id@));
        }
        r
    }

    /// The next number of the splitmix64 generator, for a synthetic id.
    pub fn next_rand(&mut self) -> (r: u64)
        ensures
            final(self)@ == old(self)@,
            final(self).same_settings(*old(self)),
            old(self).wf() ==> final(self).wf(),
            final(self).rng == splitmix_state(old(self).rng),
            r == splitmix_output(splitmix_state(old(self).rng)),
    {
        self.rng = self.rng.wrapping_add(0x9E37_79B9_7F4A_7C15);
        let mut z: u64 = self.rng;
        z = (z ^ (z >> 30)).wrapping_mul(0xBF58_476D_1CE4_E5B9);
        z = (z ^ (z >> 27)).wrapping_mul(0x94D0_49BB_1331_11EB);
        z ^ (z >> 31)
    }

    /// Where the module of `key` stands.
    fn find(&self, key: ModuleKey) -> (r: Option<usize>)
        requires
            assoc::distinct_keys(entry_pairs(self.entries@)),
        ensures
            match r {
                Some(i) => {
                    &&& i < self.entries@.len()
                    &&& self.entries@[i as int].0 == key
                    &&& self@.entries.dom().contains(key)
                    &&& self@.entries[key] == self.entries@[i as int].1@
                },
                None => !self@.entries.dom().contains(key) && !assoc::has_key(
                    entry_pairs(self.entries@),
                    key,
                ),
            },
    {
        let ghost pairs = entry_pairs(self.entries@);
        let mut i: usize = 0;
        while i < self.entries.len()
            invariant
                i <= self.entries@.len(),
                pairs == entry_pairs(self.entries@),
                assoc::distinct_keys(pairs),
                forall|j: int| 0 <= j < i ==> (#[trigger] pairs[j]).0 != key,
            decreases self.entries@.len() - i,
        {
            if self.entries[i].0 == key {
                proof {
                    assoc::lemma_entry(pairs, i as int);
                }
                return Some(i);
            }
            assert(pairs[i as int].0 != key);
            i += 1;
        }
        None
    }

    /// Whether settling `key` takes a synthetic id: it is new and there is no hint.
    pub fn needs_synthetic(&self, key: ModuleKey, id_hint: &[u8]) -> (r: bool)
        requires
            self.wf(),
        ensures
            r == (!self@.entries.dom().contains(key) && id_hint@.len() == 0),
    {
        id_hint.len() == 0 && self.find(key).is_none()
    }

    /// Settle the module of `key`; returns where it stands.
    fn settle(&mut self, key: ModuleKey, id_hint: &[u8], synthetic: &[u8]) -> (i: usize)
        requires
            old(self).wf(),
        ensures
            final(self).wf(),
            final(self).same_settings(*old(self)),
            final(self).rng == old(self).rng,
            final(self)@.entries == settled(old(self)@.entries, key, id_hint@, synthetic@),
            final(self)@.fds == old(self)@.fds,
            final(self)@.paths == old(self)@.paths,
            i < final(self).entries@.len(),
            final(self).entries@[i as int].0 == key,
            final(self)@.entries[key] == final(self).entries@[i as int].1@,
    {
        let ghost st = self@;
        let ghost pairs = entry_pairs(self.entries@);
        if let Some(i) = self.find(key) {
            return i;
        }
        let build_id: Vec<u8> = if id_hint.len() > 0 {
            slice_to_vec(id_hint)
        } else {
            slice_to_vec(synthetic)
        };
        let e = Entry { build_id, aliases: Vec::new(), inode: None, pin_done: false };
        let i: usize = self.entries.len();
        let ghost ev = e@;
        self.entries.push((key, e));
        proof {
            assoc::lemma_push(pairs, key, ev);
            assert(entry_pairs(self.entries@) =~= pairs.push((key, ev)));
            assert(ev.aliases =~= Seq::empty());
            assert(self@.entries =~= settled(st.entries, key, id_hint@, synthetic@));
            assert(self.wf()) by {
                assert forall|k: ModuleKey| #[trigger]
                    self@.entries.dom().contains(k) implies (self@.entries[k].inode matches Some(p)
                    ==> self.fds@.contains(p)) by {
                    if k != key {
                        assert(st.entries.dom().contains(k));
                    }
                }
            }
        }
        i
    }

    /// The build id that the trace uses for the module of `key`. A module that is
    /// new takes `id_hint`, or `synthetic` where that is empty; one that is known
    /// keeps the id it has.
    pub fn id_for(&mut self, key: ModuleKey, id_hint: &[u8], synthetic: &[u8]) -> (id: Vec<u8>)
        requires
            old(self).wf(),
        ensures
            final(self).wf(),
            final(self).same_settings(*old(self)),
            final(self).rng == old(self).rng,
            final(self)@.entries == settled(old(self)@.entries, key, id_hint@, synthetic@),
            final(self)@.fds == old(self)@.fds,
            final(self)@.paths == old(self)@.paths,
            id@ == final(self)@.entries[key].build_id,
    {
        let i: usize = self.settle(key, id_hint, synthetic);
        slice_to_vec(self.entries[i].1.build_id.as_slice())
    }

    /// Note the display path of an id that has none yet.
    fn note_path(&mut self, id: &[u8], path: &str)
        requires
            old(self).wf(),
        ensures
            final(self).wf(),
            final(self).same_settings(*old(self)),
            final(self).rng == old(self).rng,
            final(self).entries@ == old(self).entries@,
            final(self)@.fds == old(self)@.fds,
            final(self)@.paths == noted(old(self)@.paths, id@, path@),
    {
        let ghost pairs = path_pairs(self.paths_by_id@);
        let mut i: usize = 0;
        while i < self.paths_by_id.len()
            invariant
                i <= self.paths_by_id@.len(),
                pairs == path_pairs(self.paths_by_id@),
                assoc::distinct_keys(pairs),
                *self == *old(self),
                self.wf(),
                forall|j: int| 0 <= j < i ==> (#[trigger] pairs[j]).0 != id@,
            decreases self.paths_by_id@.len() - i,
        {
            if same_bytes(self.paths_by_id[i].0.as_slice(), id) {
                proof {
                    assoc::lemma_entry(pairs, i as int);
                }
                return;
            }
            assert(pairs[i as int].0 != id@);
            i += 1;
        }
        let key = slice_to_vec(id);
        self.paths_by_id.push((key, path.to_owned()));
        proof {
            assoc::lemma_push(pairs, id@, path@);
            assert(path_pairs(self.paths_by_id@) =~= pairs.push((id@, path@)));
        }
    }

    fn holds_alias(&self, i: usize, id_hint: &[u8]) -> (r: bool)
        requires
            i < self.entries@.len(),
        ensures
            r == self.entries@[i as int].1@.aliases.contains(id_hint@),
    {
        intern::find_bytes(&self.entries[i].1.aliases, id_hint).is_some()
    }

    /// Whether the module at `i` does not answer to `id_hint` yet.
    fn alias_missing(&self, i: usize, id_hint: &[u8]) -> (r: bool)
        requires
            i < self.entries@.len(),
        ensures
            r == lacks_alias(self.entries@[i as int].1@, id_hint@),
    {
        id_hint.len() > 0 && !same_bytes(id_hint, self.entries[i].1.build_id.as_slice())
            && !self.holds_alias(i, id_hint)
    }

    /// Whether the policy holds the file of `display_path`.
    pub fn should_hold(&self, display_path: &str) -> (r: bool)
        ensures
            r == holds(self.policy, self.platform, display_path@),
    {
        match self.policy {
            KeepPolicy::All => true,
            KeepPolicy::Auto => is_unstable(display_path, self.platform),
            KeepPolicy::Nothing => false,
        }
    }

    /// Replace what is known of the module at `i`.
    fn put(&mut self, i: usize, key: ModuleKey, e: Entry)
        requires
            old(self).wf(),
            i < old(self).entries@.len(),
            old(self).entries@[i as int].0 == key,
            e@.inode matches Some(p) ==> old(self).fds@.contains(p),
        ensures
            final(self).wf(),
            final(self).same_settings(*old(self)),
            final(self).rng == old(self).rng,
            final(self)@.entries == old(self)@.entries.insert(key, e@),
            final(self)@.fds == old(self)@.fds,
            final(self)@.paths == old(self)@.paths,
    {
        let ghost st = self@;
        let ghost pairs = entry_pairs(self.entries@);
        let ghost ev = e@;
        self.entries.set(i, (key, e));
        proof {
            assoc::lemma_update(pairs, i as int, ev);
            assert(entry_pairs(self.entries@) =~= pairs.update(i as int, (key, ev)));
            assert forall|k: ModuleKey| #[trigger]
                self@.entries.dom().contains(k) implies (self@.entries[k].inode matches Some(p)
                ==> self.fds@.contains(p)) by {
                if k != key {
                    assert(st.entries.dom().contains(k));
                }
            }
        }
    }

    /// The first half of registering a sampled module: settle its build id, note
    /// its display path, and say whether its file is to be opened. A module that
    /// the policy does not hold is settled for good. `exact` registrations also
    /// collect verified real ids.
    pub fn register(
        &mut self,
        key: ModuleKey,
        id_hint: &[u8],
        display_path: &str,
        exact: bool,
        synthetic: &[u8],
    ) -> (r: Registration)
        requires
            old(self).wf(),
        ensures
            final(self).wf(),
            final(self).same_settings(*old(self)),
            final(self).rng == old(self).rng,
            final(self)@.fds == old(self)@.fds,
            ({
                let known = settled(old(self)@.entries, key, id_hint@, synthetic@);
                let e = known[key];
                let hold = holds(old(self).policy, old(self).platform, display_path@);
                &&& r.build_id@ == e.build_id
                &&& r.open == (unsettled(e, id_hint@, exact) && hold)
                &&& final(self)@.paths == noted_paths(
                    old(self)@.paths,
                    e.build_id,
                    id_hint@,
                    display_path@,
                    exact,
                )
                &&& final(self)@.entries == (if unsettled(e, id_hint@, exact) && !hold {
                    known.insert(key, EntryView { pin_done: true, ..e })
                } else {
                    known
                })
            }),
    {
        let i: usize = self.settle(key, id_hint, synthetic);
        let ghost known = self@.entries;
        let ghost e0 = self@.entries[key];
        let build_id = slice_to_vec(self.entries[i].1.build_id.as_slice());
        if !display_path.is_empty() {
            self.note_path(build_id.as_slice(), display_path);
            if exact && id_hint.len() > 0 {
                self.note_path(id_hint, display_path);
            }
        }
        let alias_missing = self.alias_missing(i, id_hint);
        let unsettled = !self.entries[i].1.pin_done || (exact && alias_missing);
        let hold = self.should_hold(display_path);
        if unsettled && !hold {
            let e = Entry {
                build_id: slice_to_vec(build_id.as_slice()),
                aliases: copy_rows(&self.entries[i].1.aliases),
                inode: self.entries[i].1.inode,
                pin_done: true,
            };
            assert(e@ =~= EntryView { pin_done: true, ..e0 });
            proof {
                assert(known.dom().contains(key));
            }
            self.put(i, key, e);
        }
        Registration { build_id, open: unsettled && hold }
    }

    /// The second half of registering a module: `opened` is the file that was
    /// opened for it, and `elf_id` the build id that the file carries. Returns
    /// whether the registry now holds the file on this account: then its
    /// descriptor has to be kept, otherwise it can be closed.
    pub fn register_opened(
        &mut self,
        key: ModuleKey,
        id_hint: &[u8],
        exact: bool,
        verify_mapping: bool,
        verify_elf_id: bool,
        opened: Option<OpenedFile>,
        elf_id: Option<&[u8]>,
    ) -> (keep: bool)
        requires
            old(self).wf(),
            old(self)@.entries.dom().contains(key),
        ensures
            final(self).wf(),
            final(self).same_settings(*old(self)),
            final(self).rng == old(self).rng,
            final(self)@.paths == old(self)@.paths,
            ({
                let passed = opened is Some && passes(
                    key,
                    id_hint@,
                    opened->0,
                    verify_mapping,
                    verify_elf_id,
                    crate::proto::packets::opt_bytes(elf_id),
                );
                let inode = pinned(old(self)@.fds, old(self).fd_cap as nat, opened, passed);
                &&& keep == (inode matches Some(p) && !old(self)@.fds.contains(p))
                &&& final(self)@.fds == (if keep {
                    old(self)@.fds.push(inode->0)
                } else {
                    old(self)@.fds
                })
                &&& final(self)@.entries == old(self)@.entries.insert(
                    key,
                    after_pin(old(self)@.entries[key], id_hint@, exact, inode),
                )
            }),
    {
        let i: usize = match self.find(key) {
            Some(i) => i,
            None => {
                return false;
            },
        };
        let ghost e0 = self@.entries[key];
        let mut keep = false;
        let mut inode: Option<(u64, u64)> = None;
        if let Some(f) = opened {
            let mapped = !verify_mapping || match key {
                ModuleKey::Mapping { pid, base, dev_major, dev_minor, ino } => {
                    device_major(f.dev) == dev_major && device_minor(f.dev) == dev_minor && f.ino
                        == ino
                },
                ModuleKey::File { dev, ino } => true,
            };
            let verified = !verify_elf_id || id_hint.len() == 0 || match elf_id {
                Some(id) => same_bytes(id, id_hint),
                None => false,
            };
            if mapped && verified {
                if holds_pair(&self.fds, (f.dev, f.ino)) {
                    inode = Some((f.dev, f.ino));
                } else if self.fds.len() < self.fd_cap {
                    inode = Some((f.dev, f.ino));
                    keep = true;
                }
            }
        }
        let mut aliases = copy_rows(&self.entries[i].1.aliases);
        if inode.is_some() && exact && self.alias_missing(i, id_hint) {
            let ghost before = intern::rows(aliases@);
            let alias = slice_to_vec(id_hint);
            aliases.push(alias);
            assert(intern::rows(aliases@) =~= before.push(id_hint@));
        }
        let held: Option<(u64, u64)> = if inode.is_some() {
            inode
        } else {
            self.entries[i].1.inode
        };
        let e = Entry {
            build_id: slice_to_vec(self.entries[i].1.build_id.as_slice()),
            aliases,
            inode: held,
            pin_done: self.entries[i].1.pin_done || inode.is_some(),
        };
        assert(e@ =~= after_pin(e0, id_hint@, exact, inode));
        if keep {
            if let Some(p) = inode {
                let ghost fds0 = self.fds@;
                self.fds.push(p);
                proof {
                    intern::lemma_interned(fds0, p);
                    assert(fds0.push(p).contains(p)) by {
                        assert(fds0.push(p)[fds0.len() as int] == p);
                    }
                    assert forall|q: (u64, u64)| fds0.contains(q) implies self.fds@.contains(q) by {
                        let j = choose|j: int| 0 <= j < fds0.len() && fds0[j] == q;
                        assert(self.fds@[j] == q);
                    }
                }
            }
        }
        self.put(i, key, e);
        keep
    }

    /// Whether another look at the module's file could still hold it or verify a
    /// real id.
    pub fn needs_exact_retry(&self, key: ModuleKey, id_hint: &[u8], display_path: &str) -> (r: bool)
        requires
            self.wf(),
        ensures
            r == (holds(self.policy, self.platform, display_path@) && (self@.entries.dom().contains(key)
                ==> unsettled(self@.entries[key], id_hint@, true))),
    {
        if !self.should_hold(display_path) {
            return false;
        }
        match self.find(key) {
            None => true,
            Some(i) => !self.entries[i].1.pin_done || self.alias_missing(i, id_hint),
        }
    }

    /// The ids that the module at `i` answers to, each with its held file.
    fn held_ids_of(&self, i: usize, out: &mut Vec<(Vec<u8>, (u64, u64))>)
        requires
            i < self.entries@.len(),
        ensures
            ({
                let e = self.entries@[i as int].1@;
                held_pairs(final(out)@) == held_pairs(old(out)@) + entry_ids(e, self.fds@)
            }),
    {
        let ghost before = held_pairs(out@);
        let ghost ev = self.entries@[i as int].1@;
        let e = &self.entries[i].1;
        if e.build_id.len() == 0 {
            assert(held_pairs(out@) =~= before + Seq::empty());
            return;
        }
        if let Some(p) = e.inode {
            if holds_pair(&self.fds, p) {
                let id = slice_to_vec(e.build_id.as_slice());
                out.push((id, p));
                let ghost head = before.push((ev.build_id, p));
                assert(held_pairs(out@) =~= head);
                let mut j: usize = 0;
                assert(head + alias_ids(ev, p, 0) =~= head);
                while j < e.aliases.len()
                    invariant
                        j <= e.aliases@.len(),
                        ev.aliases == intern::rows(e.aliases@),
                        held_pairs(out@) == head + alias_ids(ev, p, j as nat),
                    decreases e.aliases@.len() - j,
                {
                    let alias = slice_to_vec(e.aliases[j].as_slice());
                    let ghost mid = held_pairs(out@);
                    out.push((alias, p));
                    assert(held_pairs(out@) =~= mid.push((ev.aliases[j as int], p)));
                    j += 1;
                    assert(held_pairs(out@) =~= head + alias_ids(ev, p, j as nat));
                }
                assert(held_pairs(out@) =~= before + entry_ids(ev, self.fds@));
                return;
            }
        }
        assert(held_pairs(out@) =~= before + Seq::empty());
    }

    /// Each id that a held module answers to, with the device and inode of the
    /// file it is held under.
    pub fn held_ids(&self) -> (r: Vec<(Vec<u8>, (u64, u64))>)
        requires
            self.wf(),
        ensures
            forall|id: Seq<u8>, p: (u64, u64)| #[trigger]
                held_pairs(r@).contains((id, p)) <==> exists|k: ModuleKey| #[trigger]
                    self@.entries.dom().contains(k) && answers(
                        self@.entries[k],
                        self@.fds,
                        id,
                        p,
                    ),
    {
        let ghost pairs = entry_pairs(self.entries@);
        let mut out: Vec<(Vec<u8>, (u64, u64))> = Vec::new();
        let mut i: usize = 0;
        while i < self.entries.len()
            invariant
                i <= self.entries@.len(),
                pairs == entry_pairs(self.entries@),
                forall|id: Seq<u8>, p: (u64, u64)| #[trigger]
                    held_pairs(out@).contains((id, p)) <==> exists|j: int|
                        0 <= j < i && answers((#[trigger] pairs[j]).1, self.fds@, id, p),
            decreases self.entries@.len() - i,
        {
            let ghost before = held_pairs(out@);
            self.held_ids_of(i, &mut out);
            proof {
                let e = pairs[i as int].1;
                assert forall|id: Seq<u8>, p: (u64, u64)| #[trigger]
                    held_pairs(out@).contains((id, p)) <==> exists|j: int|
                        0 <= j < i + 1 && answers((#[trigger] pairs[j]).1, self.fds@, id, p) by {
                    lemma_entry_ids(e, self.fds@, id, p);
                    lemma_contains_concat(before, entry_ids(e, self.fds@), (id, p));
                    if before.contains((id, p)) {
                        let j = choose|j: int|
                            0 <= j < i && answers((#[trigger] pairs[j]).1, self.fds@, id, p);
                        assert(answers(pairs[j].1, self.fds@, id, p));
                    }
                    if answers(e, self.fds@, id, p) {
                        assert(answers(pairs[i as int].1, self.fds@, id, p));
                    }
                }
            }
            i += 1;
        }
        proof {
            assert forall|id: Seq<u8>, p: (u64, u64)| #[trigger]
                held_pairs(out@).contains((id, p)) <==> exists|k: ModuleKey| #[trigger]
                    self@.entries.dom().contains(k) && answers(
                        self@.entries[k],
                        self@.fds,
                        id,
                        p,
                    ) by {
                if held_pairs(out@).contains((id, p)) {
                    let j = choose|j: int|
                        0 <= j < i && answers((#[trigger] pairs[j]).1, self.fds@, id, p);
                    assoc::lemma_entry(pairs, j);
                    assert(self@.entries.dom().contains(pairs[j].0));
                }
                if exists|k: ModuleKey| #[trigger]
                    self@.entries.dom().contains(k) && answers(
                        self@.entries[k],
                        self@.fds,
                        id,
                        p,
                    ) {
                    let k = choose|k: ModuleKey| #[trigger]
                        self@.entries.dom().contains(k) && answers(
                            self@.entries[k],
                            self@.fds,
                            id,
                            p,
                        );
                    assert(assoc::has_key(pairs, k));
                    let j = choose|j: int| 0 <= j < pairs.len() && (#[trigger] pairs[j]).0 == k;
                    assoc::lemma_entry(pairs, j);
                    assert(answers(pairs[j].1, self.fds@, id, p));
                }
            }
        }
        out
    }

    /// The first display path that was noted for an id.
    pub fn display_path(&self, build_id: &[u8]) -> (r: Option<&str>)
        requires
            self.wf(),
        ensures
            match r {
                Some(p) => self@.paths.dom().contains(build_id@) && self@.paths[build_id@] == p@,
                None => !self@.paths.dom().contains(build_id@),
            },
    {
        let ghost pairs = path_pairs(self.paths_by_id@);
        let mut i: usize = 0;
        while i < self.paths_by_id.len()
            invariant
                i <= self.paths_by_id@.len(),
                pairs == path_pairs(self.paths_by_id@),
                assoc::distinct_keys(pairs),
                forall|j: int| 0 <= j < i ==> (#[trigger] pairs[j]).0 != build_id@,
            decreases self.paths_by_id@.len() - i,
        {
            if same_bytes(self.paths_by_id[i].0.as_slice(), build_id) {
                proof {
                    assoc::lemma_entry(pairs, i as int);
                }
                return Some(self.paths_by_id[i].1.as_str());
            }
            assert(pairs[i as int].0 != build_id@);
            i += 1;
        }
        None
    }

    /// How many files are held.
    pub fn held_count(&self) -> (n: usize)
        ensures
            n == self@.fds.len(),
    {
        self.fds.len()
    }
}

/// The state of the generator after one step.
pub open spec fn splitmix_state(s: u64) -> u64 {
    vstd::wrapping::u64_specs::wrapping_add(s, 0x9E37_79B9_7F4A_7C15)
}

/// What the generator gives in a state.
pub open spec fn splitmix_output(s: u64) -> u64 {
    let a = vstd::wrapping::u64_specs::wrapping_mul(s ^ (s >> 30), 0xBF58_476D_1CE4_E5B9);
    let b = vstd::wrapping::u64_specs::wrapping_mul(a ^ (a >> 27), 0x94D0_49BB_1331_11EB);
    b ^ (b >> 31)
}

pub open spec fn held_pairs(s: Seq<(Vec<u8>, (u64, u64))>) -> Seq<(Seq<u8>, (u64, u64))> {
    Seq::new(s.len(), |i: int| (s[i].0@, s[i].1))
}

/// The first `n` aliases of a module, each with its file.
pub open spec fn alias_ids(e: EntryView, p: (u64, u64), n: nat) -> Seq<(Seq<u8>, (u64, u64))> {
    Seq::new(n, |i: int| (e.aliases[i], p))
}

/// The ids that a held module answers to, each with its file.
pub open spec fn entry_ids(e: EntryView, fds: Seq<(u64, u64)>) -> Seq<(Seq<u8>, (u64, u64))> {
    if e.build_id.len() > 0 && e.inode is Some && fds.contains(e.inode->0) {
        seq![(e.build_id, e.inode->0)] + alias_ids(e, e.inode->0, e.aliases.len())
    } else {
        Seq::empty()
    }
}

/// Whether a module answers to `id` and is held under `p`.
pub open spec fn answers(e: EntryView, fds: Seq<(u64, u64)>, id: Seq<u8>, p: (u64, u64)) -> bool {
    &&& e.build_id.len() > 0
    &&& e.inode == Some(p)
    &&& fds.contains(p)
    &&& e.build_id == id || e.aliases.contains(id)
}

proof fn lemma_contains_concat<T>(a: Seq<T>, b: Seq<T>, x: T)
    ensures
        (a + b).contains(x) <==> a.contains(x) || b.contains(x),
{
    if a.contains(x) {
        let i = choose|i: int| 0 <= i < a.len() && a[i] == x;
        assert((a + b)[i] == x);
    }
    if b.contains(x) {
        let i = choose|i: int| 0 <= i < b.len() && b[i] == x;
        assert((a + b)[a.len() + i] == x);
    }
    if (a + b).contains(x) {
        let i = choose|i: int| 0 <= i < (a + b).len() && (a + b)[i] == x;
        if i < a.len() {
            assert(a[i] == x);
        } else {
            assert(b[i - a.len()] == x);
        }
    }
}

proof fn lemma_entry_ids(e: EntryView, fds: Seq<(u64, u64)>, id: Seq<u8>, p: (u64, u64))
    ensures
        entry_ids(e, fds).contains((id, p)) <==> answers(e, fds, id, p),
{
    let s = entry_ids(e, fds);
    if answers(e, fds, id, p) {
        if e.build_id == id {
            assert(s[0] == (id, p));
        } else {
            let i = choose|i: int| 0 <= i < e.aliases.len() && e.aliases[i] == id;
            assert(s[i + 1] == (id, p));
        }
    }
    if s.contains((id, p)) {
        let i = choose|i: int| 0 <= i < s.len() && s[i] == (id, p);
        if i > 0 {
            assert(s[i] == (e.aliases[i - 1], e.inode->0));
        }
    }
}

fn holds_pair(s: &Vec<(u64, u64)>, p: (u64, u64)) -> (r: bool)
    ensures
        r == s@.contains(p),
{
    let mut i: usize = 0;
    while i < s.len()
        invariant
            i <= s@.len(),
            forall|j: int| 0 <= j < i ==> s@[j] != p,
        decreases s@.len() - i,
    {
        if s[i].0 == p.0 && s[i].1 == p.1 {
            assert(s@[i as int] == p);
            return true;
        }
        i += 1;
    }
    false
}

fn copy_rows(s: &Vec<Vec<u8>>) -> (r: Vec<Vec<u8>>)
    ensures
        intern::rows(r@) == intern::rows(s@),
{
    let mut r: Vec<Vec<u8>> = Vec::new();
    let mut i: usize = 0;
    while i < s.len()
        invariant
            i <= s@.len(),
            intern::rows(r@) == intern::rows(s@).take(i as int),
        decreases s@.len() - i,
    {
        let ghost before = intern::rows(r@);
        let row = slice_to_vec(s[i].as_slice());
        r.push(row);
        assert(intern::rows(r@) =~= before.push(s@[i as int]@));
        i += 1;
        assert(intern::rows(s@).take(i as int) =~= intern::rows(s@).take(i - 1).push(s@[i - 1]@));
    }
    assert(intern::rows(s@).take(i as int) =~= intern::rows(s@));
    r
}

/// Every observer of a module agrees on its id: once it is settled, settling it
/// again changes nothing, whatever hint comes with it.
pub proof fn lemma_id_is_settled_once(
    entries: Map<ModuleKey, EntryView>,
    key: ModuleKey,
    hint: Seq<u8>,
    synthetic: Seq<u8>,
    hint2: Seq<u8>,
    synthetic2: Seq<u8>,
)
    ensures
        ({
            let once = settled(entries, key, hint, synthetic);
            settled(once, key, hint2, synthetic2) == once
        }),
{
}

/// The state of the generator after `n` steps from `seed`.
pub open spec fn state_after(seed: u64, n: nat) -> u64
    decreases n,
{
    if n == 0 {
        seed
    } else {
        splitmix_state(state_after(seed, (n - 1) as nat))
    }
}

/// The `n`-th number, from 0 on, that a registry made with `seed` draws.
pub open spec fn draw(seed: u64, n: nat) -> u64 {
    splitmix_output(state_after(seed, n + 1))
}

/// A step of the generator and what it gives both lose nothing: different states
/// have different successors and give different numbers.
pub proof fn lemma_generator_is_injective(a: u64, b: u64)
    ensures
        splitmix_state(a) == splitmix_state(b) ==> a == b,
        splitmix_output(a) == splitmix_output(b) ==> a == b,
{
    let (a1, b1) = (a ^ (a >> 30), b ^ (b >> 30));
    let a2 = vstd::wrapping::u64_specs::wrapping_mul(a1, 0xBF58_476D_1CE4_E5B9);
    let b2 = vstd::wrapping::u64_specs::wrapping_mul(b1, 0xBF58_476D_1CE4_E5B9);
    let (a3, b3) = (a2 ^ (a2 >> 27), b2 ^ (b2 >> 27));
    let a4 = vstd::wrapping::u64_specs::wrapping_mul(a3, 0x94D0_49BB_1331_11EB);
    let b4 = vstd::wrapping::u64_specs::wrapping_mul(b3, 0x94D0_49BB_1331_11EB);
    if splitmix_output(a) == splitmix_output(b) {
        assert(a4 ^ (a4 >> 31) == b4 ^ (b4 >> 31) ==> a4 == b4) by (bit_vector);
        lemma_unit_factor(
            a3 as int,
            b3 as int,
            0x94D0_49BB_1331_11EB,
            0x3196_42B2_D24D_8EC3,
            2077064247507883091,
        );
        assert(a2 ^ (a2 >> 27) == b2 ^ (b2 >> 27) ==> a2 == b2) by (bit_vector);
        lemma_unit_factor(
            a1 as int,
            b1 as int,
            0xBF58_476D_1CE4_E5B9,
            0x96DE_1B17_3F11_9089,
            8125545580553827436,
        );
        assert(a ^ (a >> 30) == b ^ (b >> 30) ==> a == b) by (bit_vector);
    }
}

/// Multiplying by a number with an inverse modulo 2^64 loses nothing.
proof fn lemma_unit_factor(x: int, y: int, c: int, inverse: int, k: int)
    requires
        0 <= x < 0x1_0000_0000_0000_0000,
        0 <= y < 0x1_0000_0000_0000_0000,
        c * inverse == k * 0x1_0000_0000_0000_0000 + 1,
        (x * c) % 0x1_0000_0000_0000_0000 == (y * c) % 0x1_0000_0000_0000_0000,
    ensures
        x == y,
{
    let m: int = 0x1_0000_0000_0000_0000;
    let q = (x * c) / m - (y * c) / m;
    let t = q * inverse - (x - y) * k;
    vstd::arithmetic::div_mod::lemma_fundamental_div_mod(x * c, m);
    vstd::arithmetic::div_mod::lemma_fundamental_div_mod(y * c, m);
    assert((x - y) * c == q * m) by (nonlinear_arith)
        requires
            x * c == m * ((x * c) / m) + (x * c) % m,
            y * c == m * ((y * c) / m) + (y * c) % m,
            (x * c) % m == (y * c) % m,
            q == (x * c) / m - (y * c) / m,
    ;
    assert(((x - y) * c) * inverse == (x - y) * (c * inverse)) by (nonlinear_arith);
    assert((q * m) * inverse == (q * inverse) * m) by (nonlinear_arith);
    assert((x - y) * (k * m + 1) == ((x - y) * k) * m + (x - y)) by (nonlinear_arith);
    assert(x - y == t * m) by (nonlinear_arith)
        requires
            (q * inverse) * m == ((x - y) * k) * m + (x - y),
            t == q * inverse - (x - y) * k,
    ;
    assert(t == 0) by (nonlinear_arith)
        requires
            -m < t * m < m,
            m > 0,
    ;
}

proof fn lemma_state_after(seed: u64, n: nat)
    ensures
        state_after(seed, n) == (seed + n * 0x9E37_79B9_7F4A_7C15) % 0x1_0000_0000_0000_0000,
    decreases n,
{
    if n > 0 {
        lemma_state_after(seed, (n - 1) as nat);
        let before = seed + (n - 1) * 0x9E37_79B9_7F4A_7C15;
        vstd::arithmetic::div_mod::lemma_add_mod_noop(
            before,
            0x9E37_79B9_7F4A_7C15,
            0x1_0000_0000_0000_0000,
        );
        assert(before + 0x9E37_79B9_7F4A_7C15 == seed + n * 0x9E37_79B9_7F4A_7C15);
    }
}

/// No number is drawn twice in 2^64 draws, so that the ids made of them can all
/// differ.
pub proof fn lemma_draws_differ(seed: u64, i: nat, j: nat)
    requires
        i < j,
        j - i < 0x1_0000_0000_0000_0000,
    ensures
        draw(seed, i) != draw(seed, j),
{
    let m: int = 0x1_0000_0000_0000_0000;
    let c: int = 0x9E37_79B9_7F4A_7C15;
    let (a, b) = (state_after(seed, i + 1), state_after(seed, j + 1));
    lemma_generator_is_injective(a, b);
    lemma_state_after(seed, i + 1);
    lemma_state_after(seed, j + 1);
    if a == b {
        let (u, v) = (seed + (i + 1) * c, seed + (j + 1) * c);
        vstd::arithmetic::div_mod::lemma_fundamental_div_mod(u, m);
        vstd::arithmetic::div_mod::lemma_fundamental_div_mod(v, m);
        let q = v / m - u / m;
        assert(v - u == (j - i) * c);
        assert((j - i) * c == m * q + 0);
        vstd::arithmetic::div_mod::lemma_fundamental_div_mod_converse((j - i) * c, m, q, 0);
        lemma_unit_factor(j - i, 0, c, 0xF1DE_83E1_9937_733D, 10771413168148108919);
    }
}

/// Modules without an id of their own stay apart: two that are settled with different
/// synthetic ids have different ids, and neither changes a module that was known.
pub proof fn lemma_synthetic_ids_stay_apart(
    entries: Map<ModuleKey, EntryView>,
    key: ModuleKey,
    other: ModuleKey,
    synthetic: Seq<u8>,
    synthetic2: Seq<u8>,
)
    requires
        key != other,
        !entries.dom().contains(key),
        !entries.dom().contains(other),
        synthetic != synthetic2,
    ensures
        ({
            let both = settled(
                settled(entries, key, Seq::empty(), synthetic),
                other,
                Seq::empty(),
                synthetic2,
            );
            &&& both[key].build_id != both[other].build_id
            &&& forall|k: ModuleKey| #[trigger]
                entries.dom().contains(k) ==> both.dom().contains(k) && both[k] == entries[k]
        }),
{
}

/// Looking at a module's file never changes the module's id, never unsettles what
/// was settled, and never lets go of a file that was held.
pub proof fn lemma_pin_keeps(e: EntryView, hint: Seq<u8>, exact: bool, inode: Option<(u64, u64)>)
    ensures
        ({
            let n = after_pin(e, hint, exact, inode);
            &&& n.build_id == e.build_id
            &&& e.pin_done ==> n.pin_done
            &&& e.inode is Some ==> n.inode is Some
            &&& e.aliases.is_prefix_of(n.aliases)
        }),
{
}

/// Once a module's file was held under a hint, there is nothing left to retry for
/// that hint.
pub proof fn lemma_held_needs_no_retry(e: EntryView, hint: Seq<u8>, p: (u64, u64))
    ensures
        !unsettled(after_pin(e, hint, true, Some(p)), hint, true),
{
    let n = after_pin(e, hint, true, Some(p));
    if lacks_alias(e, hint) {
        assert(n.aliases[e.aliases.len() as int] == hint);
    }
}

/// The limit on held files is kept: a file is only added below it.
pub proof fn lemma_cap_is_kept(fds: Seq<(u64, u64)>, cap: nat, opened: Option<OpenedFile>, passed: bool)
    requires
        fds.len() <= cap,
    ensures
        ({
            let inode = pinned(fds, cap, opened, passed);
            inode matches Some(p) ==> intern::with_key(fds, p).len() <= cap
        }),
{
}

/// The numbers of a device are those that its number was made of, as Linux makes it.
pub proof fn lemma_device_numbers(major: u32, minor: u32)
    ensures
        ({
            let a = major as u64;
            let i = minor as u64;
            let dev = (i & 0xff) | ((a & 0xfff) << 8) | ((i >> 8) << 20) | ((a >> 12) << 44);
            major_of(dev) == major && minor_of(dev) == minor
        }),
{
    let a = major as u64;
    let i = minor as u64;
    let dev = (i & 0xff) | ((a & 0xfff) << 8) | ((i >> 8) << 20) | ((a >> 12) << 44);
    assert(dev / 0x100 % 0x1000 + dev / 0x1000_0000_0000 * 0x1000 == a && dev % 0x100 + dev
        / 0x10_0000 % 0x100_0000 * 0x100 == i) by (bit_vector)
        requires
            dev == (i & 0xff) | ((a & 0xfff) << 8) | ((i >> 8) << 20) | ((a >> 12) << 44),
            a <= 0xffff_ffff,
            i <= 0xffff_ffff,
    ;
}

/// A path's hash takes in its bytes one by one: each is mixed into the low end, then the
/// whole is multiplied.
pub proof fn lemma_hash_takes_in(s: Seq<u8>, b: u8)
    ensures
        fnv1a(s.push(b)) == vstd::wrapping::u64_specs::wrapping_mul(
            fnv1a(s) ^ (b as u64),
            1_099_511_628_211,
        ),
        s.len() == 0 ==> fnv1a(s) == 14_695_981_039_346_656_037,
{
    assert(s.push(b).drop_last() =~= s);
}

/// A real id that was verified against a held file is one that the module answers to from
/// then on; one that was not verified is not.
pub proof fn lemma_verified_id_answers(
    e: EntryView,
    hint: Seq<u8>,
    p: (u64, u64),
    fds: Seq<(u64, u64)>,
)
    requires
        e.build_id.len() > 0,
        hint.len() > 0,
        fds.contains(p),
    ensures
        answers(after_pin(e, hint, true, Some(p)), fds, hint, p),
        answers(after_pin(e, hint, true, Some(p)), fds, e.build_id, p),
        after_pin(e, hint, false, Some(p)).aliases == e.aliases,
        after_pin(e, hint, true, None) == e,
{
    let n = after_pin(e, hint, true, Some(p));
    if lacks_alias(e, hint) {
        assert(n.aliases[e.aliases.len() as int] == hint);
    }
}

/// An id leads to the first path that it was seen under, and to no other from then on; a
/// hint leads there too where it is exact, and an empty path is not noted.
pub proof fn lemma_first_path_stays(
    paths: Map<Seq<u8>, Seq<char>>,
    id: Seq<u8>,
    hint: Seq<u8>,
    path: Seq<char>,
    exact: bool,
)
    ensures
        ({
            let n = noted_paths(paths, id, hint, path, exact);
            &&& path.len() == 0 ==> n == paths
            &&& path.len() > 0 ==> n.dom().contains(id)
            &&& path.len() > 0 && exact && hint.len() > 0 ==> n.dom().contains(hint)
            &&& forall|k: Seq<u8>|
                paths.dom().contains(k) ==> #[trigger] n.dom().contains(k) && n[k] == paths[k]
            &&& forall|k: Seq<u8>|
                #[trigger] n.dom().contains(k) && !paths.dom().contains(k) ==> n[k] == path && (k
                    == id || (exact && k == hint))
        }),
{
}

/// A module that was not known takes the id that it is said to have, where it is said, and
/// is not settled yet; one that was known keeps what it has.
pub proof fn lemma_settled(
    entries: Map<ModuleKey, EntryView>,
    key: ModuleKey,
    hint: Seq<u8>,
    synthetic: Seq<u8>,
)
    ensures
        ({
            let n = settled(entries, key, hint, synthetic);
            &&& n.dom().contains(key)
            &&& entries.dom().contains(key) ==> n == entries
            &&& !entries.dom().contains(key) ==> {
                &&& hint.len() > 0 ==> n[key].build_id == hint
                &&& hint.len() == 0 ==> n[key].build_id == synthetic
                &&& n[key].aliases.len() == 0
                &&& n[key].inode is None
                &&& unsettled(n[key], hint, true)
            }
        }),
{
}

/// The trees that an installer manages, and some that none does, whatever follows.
#[verifier::spinoff_prover]
#[verifier::rlimit(40)]
pub proof fn lemma_stable_trees(rest: Seq<char>, platform: Platform)
    ensures
        stable("/usr/"@ + rest, platform),
        stable("/bin/"@ + rest, platform),
        stable("/sbin/"@ + rest, platform),
        stable("/opt/"@ + rest, platform),
        stable("/lib/"@ + rest, platform) <==> platform == Platform::Linux,
        stable("/lib64/"@ + rest, platform) <==> platform == Platform::Linux,
        stable("/System/"@ + rest, platform) <==> platform == Platform::Macos,
        stable("/Library/"@ + rest, platform) <==> platform == Platform::Macos,
        stable("/Applications/"@ + rest, platform) <==> platform == Platform::Macos,
        !stable("/home/"@ + rest, platform),
        !stable("/Users/"@ + rest, platform),
        !stable("/tmp/"@ + rest, platform),
{
    reveal_strlit("/usr/");
    reveal_strlit("/bin/");
    reveal_strlit("/sbin/");
    reveal_strlit("/opt/");
    reveal_strlit("/lib/");
    reveal_strlit("/lib64/");
    reveal_strlit("/System/");
    reveal_strlit("/Library/");
    reveal_strlit("/Applications/");
    reveal_strlit("/home/");
    reveal_strlit("/Users/");
    reveal_strlit("/tmp/");
    lemma_under("/usr/"@, rest);
    lemma_under("/bin/"@, rest);
    lemma_under("/sbin/"@, rest);
    lemma_under("/opt/"@, rest);
    lemma_under("/lib/"@, rest);
    lemma_under("/lib64/"@, rest);
    lemma_under("/System/"@, rest);
    lemma_under("/Library/"@, rest);
    lemma_under("/Applications/"@, rest);
    lemma_not_stable("/lib/"@ + rest, Platform::Macos);
    lemma_not_stable("/lib64/"@ + rest, Platform::Macos);
    lemma_not_stable("/System/"@ + rest, Platform::Linux);
    lemma_not_stable("/Library/"@ + rest, Platform::Linux);
    lemma_not_stable("/Applications/"@ + rest, Platform::Linux);
    lemma_not_stable("/home/"@ + rest, platform);
    lemma_not_stable("/Users/"@ + rest, platform);
    lemma_not_stable("/tmp/"@ + rest, platform);
}

proof fn lemma_under(prefix: Seq<char>, rest: Seq<char>)
    ensures
        under(prefix + rest, prefix),
{
    assert((prefix + rest).take(prefix.len() as int) =~= prefix);
}

proof fn lemma_not_under(path: Seq<char>, prefix: Seq<char>, i: int)
    requires
        0 <= i < prefix.len(),
        i < path.len() ==> path[i] != prefix[i],
    ensures
        !under(path, prefix),
{
    if prefix.len() <= path.len() {
        assert(path.take(prefix.len() as int)[i] == path[i]);
    }
}

/// A path is in none of the trees where its second character begins none of
/// their names on the platform.
proof fn lemma_not_stable(path: Seq<char>, platform: Platform)
    requires
        path.len() >= 3,
        path[1] != 'u',
        path[1] != 'b',
        path[1] != 's',
        path[1] != 'o',
        platform == Platform::Linux ==> path[1] != 'l',
        platform == Platform::Macos ==> path[1] != 'S' && path[1] != 'L' && path[1] != 'A',
    ensures
        !stable(path, platform),
{
    reveal_strlit("/usr/");
    reveal_strlit("/bin/");
    reveal_strlit("/sbin/");
    reveal_strlit("/opt/");
    reveal_strlit("/lib/");
    reveal_strlit("/lib64/");
    reveal_strlit("/System/");
    reveal_strlit("/Library/");
    reveal_strlit("/Applications/");
    lemma_not_under(path, "/usr/"@, 1);
    lemma_not_under(path, "/bin/"@, 1);
    lemma_not_under(path, "/sbin/"@, 1);
    lemma_not_under(path, "/opt/"@, 1);
    if platform == Platform::Linux {
        lemma_not_under(path, "/lib/"@, 1);
        lemma_not_under(path, "/lib64/"@, 1);
    } else {
        lemma_not_under(path, "/System/"@, 1);
        lemma_not_under(path, "/Library/"@, 1);
        lemma_not_under(path, "/Applications/"@, 1);
    }
}

/// When an opened file passes: always where nothing is asked of it; never where it is to be
/// the mapped one and its inode or its device is another, nor where it is to carry an id
/// and carries another or none; without an id to carry none is asked for.
pub proof fn lemma_passes(
    key: ModuleKey,
    hint: Seq<u8>,
    f: OpenedFile,
    verify_mapping: bool,
    verify_elf_id: bool,
    elf_id: Option<Seq<u8>>,
)
    ensures
        passes(key, hint, f, false, false, elf_id),
        hint.len() == 0 ==> passes(key, hint, f, false, true, elf_id),
        hint.len() > 0 && elf_id != Some(hint) ==> !passes(
            key,
            hint,
            f,
            verify_mapping,
            true,
            elf_id,
        ),
        passes(key, hint, f, false, true, Some(hint)),
        key matches ModuleKey::Mapping { pid, base, dev_major, dev_minor, ino } ==> (passes(
            key,
            hint,
            f,
            true,
            false,
            elf_id,
        ) <==> f.ino == ino && major_of(f.dev) == dev_major && minor_of(f.dev) == dev_minor),
        key is File ==> passes(key, hint, f, true, false, elf_id),
{
}

} // verus!
