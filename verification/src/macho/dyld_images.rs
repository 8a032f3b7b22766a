//! The images that are loaded in a task: how the loader's records list them, and
//! what an image's load commands say.

use crate::bytes;
use crate::bytes::{bytes_before, read_le_u32, read_le_u64, same_bytes};
use crate::sorted;
use crate::sorted::{sort_by_key, HasKey, Keyed};
use vstd::prelude::*;
use vstd::slice::{slice_subrange, slice_to_vec};
use vstd::string::*;

verus! {

pub const MH_MAGIC_64: u32 = 0xfeed_facf;

pub const LC_SEGMENT_64: u32 = 0x19;

pub const LC_UUID: u32 = 0x1b;

/// An entry of the image list: load address, path, date.
pub const IMAGE_INFO_SIZE: usize = 24;

pub const HEAD_BYTES: usize = 16;

pub const MACH_HEADER_BYTES: usize = 32;

/// Why the images could not be listed. Only an empty list is worth another try: the
/// loader may not have published it yet.
pub const ERR_TASK_INFO: u32 = 1;

pub const ERR_EMPTY: u32 = 2;

pub const ERR_VM_READ: u32 = 3;

/// Where the loader's records are; an error where the task could not be asked, or
/// has none.
pub fn info_address(asked: bool, all_image_info_addr: u64) -> (r: Result<u64, u32>)
    ensures
        r == (if !asked {
            Err(ERR_TASK_INFO)
        } else if all_image_info_addr == 0 {
            Err(ERR_EMPTY)
        } else {
            Ok(all_image_info_addr)
        }),
{
    if !asked {
        return Err(ERR_TASK_INFO);
    }
    if all_image_info_addr == 0 {
        return Err(ERR_EMPTY);
    }
    Ok(all_image_info_addr)
}

/// How many images there are and where their entries stand. `got` is how much of
/// the record's head was read.
pub fn image_array(got: Option<usize>, head: &[u8]) -> (r: Result<(u32, u64), u32>)
    requires
        head@.len() == HEAD_BYTES,
    ensures
        r == (if !(got matches Some(n) && n >= HEAD_BYTES) {
            Err(ERR_VM_READ)
        } else if bytes::le_u64(head@, 8) == 0 || bytes::le_u32(head@, 4) == 0 {
            Err(ERR_EMPTY)
        } else {
            Ok((bytes::le_u32(head@, 4), bytes::le_u64(head@, 8)))
        }),
{
    let whole: bool = match got {
        Some(n) => n >= HEAD_BYTES,
        None => false,
    };
    if !whole {
        return Err(ERR_VM_READ);
    }
    let count: u32 = read_le_u32(head, 4);
    let array: u64 = read_le_u64(head, 8);
    if array == 0 || count == 0 {
        return Err(ERR_EMPTY);
    }
    Ok((count, array))
}

/// The load address and the address of the path of each image, of the entries that
/// were read whole.
pub fn image_entries(got: usize, entries: &[u8]) -> (r: Vec<(u64, u64)>)
    requires
        got <= entries@.len(),
    ensures
        r@ == Seq::new(
            (got / IMAGE_INFO_SIZE) as nat,
            |i: int| (bytes::le_u64(entries@, i * 24), bytes::le_u64(entries@, i * 24 + 8)),
        ),
{
    let usable: usize = got / IMAGE_INFO_SIZE;
    let len: usize = entries.len();
    let mut r: Vec<(u64, u64)> = Vec::new();
    let mut i: usize = 0;
    while i < usable
        invariant
            i <= usable,
            usable * 24 <= len,
            len == entries@.len(),
            r@ == Seq::new(
                i as nat,
                |j: int| (bytes::le_u64(entries@, j * 24), bytes::le_u64(entries@, j * 24 + 8)),
            ),
        decreases usable - i,
    {
        let off: usize = i * IMAGE_INFO_SIZE;
        r.push((read_le_u64(entries, off), read_le_u64(entries, off + 8)));
        i += 1;
        assert(r@ =~= Seq::new(
            i as nat,
            |j: int| (bytes::le_u64(entries@, j * 24), bytes::le_u64(entries@, j * 24 + 8)),
        ));
    }
    r
}

/// A path that was read from an address: nothing where there is none, a question
/// mark where it could not be read.
pub open spec fn path_read(addr: u64, read: Option<Seq<u8>>) -> Seq<u8> {
    if addr == 0 {
        Seq::empty()
    } else {
        match read {
            Some(b) => bytes::before(b, 0),
            None => "?".spec_bytes(),
        }
    }
}

/// The path of an image, from what was read at its address.
pub fn image_path(addr: u64, read: Option<&[u8]>) -> (r: Vec<u8>)
    ensures
        r@ == path_read(
            addr,
            match read {
                Some(b) => Some(b@),
                None => None,
            },
        ),
{
    if addr == 0 {
        let none: Vec<u8> = Vec::new();
        assert(none@ =~= Seq::empty());
        return none;
    }
    match read {
        Some(b) => bytes_before(b, 0),
        None => slice_to_vec("?".as_bytes()),
    }
}

impl HasKey for (u64, Vec<u8>) {
    open spec fn key(self) -> u64 {
        self.0
    }
}

impl Keyed for (u64, Vec<u8>) {
    fn key_of(&self) -> (k: u64) {
        self.0
    }
}

/// The images of a task: base and path of each.
pub struct ImageList {
    pub images: Vec<(u64, Vec<u8>)>,
}

impl ImageList {
    /// The images of the array's entries, in their order; `paths` is what was read at
    /// the address of each path.
    pub fn enumerate(entries: &Vec<(u64, u64)>, paths: &Vec<Option<Vec<u8>>>) -> (r: ImageList)
        requires
            entries@.len() == paths@.len(),
        ensures
            r.images@.len() == entries@.len(),
            forall|i: int|
                0 <= i < entries@.len() ==> {
                    &&& (#[trigger] r.images@[i]).0 == entries@[i].0
                    &&& r.images@[i].1@ == path_read(
                        entries@[i].1,
                        match paths@[i] {
                            Some(b) => Some(b@),
                            None => None,
                        },
                    )
                },
    {
        let mut images: Vec<(u64, Vec<u8>)> = Vec::new();
        let mut k: usize = 0;
        while k < entries.len()
            invariant
                k <= entries@.len(),
                entries@.len() == paths@.len(),
                images@.len() == k,
                forall|i: int|
                    0 <= i < k ==> {
                        &&& (#[trigger] images@[i]).0 == entries@[i].0
                        &&& images@[i].1@ == path_read(
                            entries@[i].1,
                            match paths@[i] {
                                Some(b) => Some(b@),
                                None => None,
                            },
                        )
                    },
            decreases entries@.len() - k,
        {
            let path = match &paths[k] {
                Some(b) => image_path(entries[k].1, Some(b.as_slice())),
                None => image_path(entries[k].1, None),
            };
            images.push((entries[k].0, path));
            k += 1;
        }
        ImageList { images }
    }

    pub fn len(&self) -> (n: usize)
        ensures
            n == self.images@.len(),
    {
        self.images.len()
    }

    pub fn is_empty(&self) -> (r: bool)
        ensures
            r == (self.images@.len() == 0),
    {
        self.images.len() == 0
    }

    /// Order the images by base.
    pub fn sort_by_base(&mut self)
        ensures
            final(self).images@ == sorted::by_key(old(self).images@),
            sorted::ordered(final(self).images@),
            final(self).images@.to_multiset() == old(self).images@.to_multiset(),
    {
        proof {
            sorted::lemma_by_key(self.images@);
        }
        let mut taken: Vec<(u64, Vec<u8>)> = Vec::new();
        std::mem::swap(&mut taken, &mut self.images);
        self.images = sort_by_key(taken);
    }

    pub fn images(&self) -> (r: &[(u64, Vec<u8>)])
        ensures
            r@ == self.images@,
    {
        self.images.as_slice()
    }
}

/// An image that was read from a task.
pub struct MachoImage {
    pub text: Vec<u8>,
    pub text_vmsize: u64,
    pub cputype: u32,
    pub cpusubtype: u32,
    pub uuid: [u8; 16],
}

/// What of an image's header is read.
#[derive(Clone, Copy, PartialEq, Eq, Structural, Debug)]
pub struct MachHeader {
    pub cputype: u32,
    pub cpusubtype: u32,
    pub ncmds: u32,
    pub sizeofcmds: u32,
}

/// The header of a 64-bit image; None where it was not read whole or is none.
pub fn mach_header(got: Option<usize>, hdr: &[u8]) -> (r: Option<MachHeader>)
    requires
        hdr@.len() == MACH_HEADER_BYTES,
    ensures
        r == (if (got matches Some(n) && n >= MACH_HEADER_BYTES) && bytes::le_u32(hdr@, 0)
            == MH_MAGIC_64 {
            Some(
                MachHeader {
                    cputype: bytes::le_u32(hdr@, 4),
                    cpusubtype: bytes::le_u32(hdr@, 8),
                    ncmds: bytes::le_u32(hdr@, 16),
                    sizeofcmds: bytes::le_u32(hdr@, 20),
                },
            )
        } else {
            None
        }),
{
    let whole: bool = match got {
        Some(n) => n >= MACH_HEADER_BYTES,
        None => false,
    };
    if !whole || read_le_u32(hdr, 0) != MH_MAGIC_64 {
        return None;
    }
    Some(
        MachHeader {
            cputype: read_le_u32(hdr, 4),
            cpusubtype: read_le_u32(hdr, 8),
            ncmds: read_le_u32(hdr, 16),
            sizeofcmds: read_le_u32(hdr, 20),
        },
    )
}

/// What the load commands have said so far: the identity, and the size of the text.
#[verifier::ext_equal]
pub struct Found {
    pub uuid: Seq<u8>,
    pub text_vmsize: u64,
}

/// Whether a load command stands whole at `off`.
pub open spec fn command_at(cmds: Seq<u8>, off: int) -> bool {
    &&& off + 8 <= cmds.len()
    &&& bytes::le_u32(cmds, off + 4) != 0
    &&& off + bytes::le_u32(cmds, off + 4) <= cmds.len()
}

/// What the command at `off` adds: a text segment its size, an identity itself.
pub open spec fn with_command(f: Found, cmds: Seq<u8>, off: int) -> Found {
    let cmd = bytes::le_u32(cmds, off);
    let size = bytes::le_u32(cmds, off + 4);
    if cmd == LC_SEGMENT_64 && size >= 72 {
        if bytes::before(cmds.subrange(off + 8, off + 24), 0) == "__TEXT".spec_bytes() {
            Found { text_vmsize: bytes::le_u64(cmds, off + 32), ..f }
        } else {
            f
        }
    } else if cmd == LC_UUID && size >= 24 {
        Found { uuid: cmds.subrange(off + 8, off + 24), ..f }
    } else {
        f
    }
}

/// What `n` load commands from `off` on say; a command that is cut off ends them.
pub open spec fn commands(f: Found, cmds: Seq<u8>, off: int, n: nat) -> Found
    decreases n,
{
    if n == 0 || !command_at(cmds, off) {
        f
    } else {
        commands(
            with_command(f, cmds, off),
            cmds,
            off + bytes::le_u32(cmds, off + 4),
            (n - 1) as nat,
        )
    }
}

pub open spec fn nothing_found() -> Found {
    Found { uuid: Seq::new(16, |i: int| 0u8), text_vmsize: 0 }
}

fn bytes16(b: &[u8]) -> (r: [u8; 16])
    requires
        b@.len() == 16,
    ensures
        r@ == b@,
{
    let mut r: [u8; 16] = [0u8; 16];
    let mut i: usize = 0;
    while i < 16
        invariant
            i <= 16,
            b@.len() == 16,
            forall|j: int| 0 <= j < i ==> r@[j] == b@[j],
        decreases 16 - i,
    {
        r[i] = b[i];
        i += 1;
    }
    assert(r@ =~= b@);
    r
}

/// The identity of an image, and the size of its text; None where it has no text.
pub fn parse_uuid_and_text_vmsize(cmds: &[u8], ncmds: u32) -> (r: Option<([u8; 16], u64)>)
    ensures
        ({
            let f = commands(nothing_found(), cmds@, 0, ncmds as nat);
            match r {
                Some(v) => f.text_vmsize != 0 && v.0@ == f.uuid && v.1 == f.text_vmsize,
                None => f.text_vmsize == 0,
            }
        }),
{
    let mut text_vmsize: u64 = 0;
    let mut uuid: [u8; 16] = [0u8; 16];
    let mut off: usize = 0;
    let mut left: u32 = ncmds;
    let len: usize = cmds.len();
    let ghost all = commands(nothing_found(), cmds@, 0, ncmds as nat);
    assert((Found { uuid: uuid@, text_vmsize }) =~= nothing_found());
    while left > 0
        invariant_except_break
            off <= len,
            len == cmds@.len(),
            commands(Found { uuid: uuid@, text_vmsize }, cmds@, off as int, left as nat) == all,
        ensures
            (Found { uuid: uuid@, text_vmsize }) == all,
        decreases left,
    {
        if len - off < 8 {
            break;
        }
        let cmd: u32 = read_le_u32(cmds, off);
        let cmdsize: u32 = read_le_u32(cmds, off + 4);
        if cmdsize == 0 || cmdsize as usize > len - off {
            break;
        }
        if cmd == LC_SEGMENT_64 && cmdsize >= 72 {
            let name = bytes_before(slice_subrange(cmds, off + 8, off + 24), 0);
            if same_bytes(name.as_slice(), "__TEXT".as_bytes()) {
                text_vmsize = read_le_u64(cmds, off + 32);
            }
        } else if cmd == LC_UUID && cmdsize >= 24 {
            uuid = bytes16(slice_subrange(cmds, off + 8, off + 24));
        }
        off = off + cmdsize as usize;
        left -= 1;
    }
    if text_vmsize == 0 {
        return None;
    }
    Some((uuid, text_vmsize))
}

/// The identity of an image and the size of its text, from its load commands; None
/// where they were not read whole.
pub fn read_macho_meta(header: &MachHeader, got: Option<usize>, cmds: &[u8]) -> (r: Option<
    ([u8; 16], u64),
>)
    requires
        cmds@.len() == header.sizeofcmds,
    ensures
        ({
            let f = commands(nothing_found(), cmds@, 0, header.ncmds as nat);
            let whole = got matches Some(n) && n >= cmds@.len();
            match r {
                Some(v) => whole && f.text_vmsize != 0 && v.0@ == f.uuid && v.1 == f.text_vmsize,
                None => !whole || f.text_vmsize == 0,
            }
        }),
{
    let whole: bool = match got {
        Some(n) => n >= cmds.len(),
        None => false,
    };
    if !whole {
        return None;
    }
    parse_uuid_and_text_vmsize(cmds, header.ncmds)
}

/// An image, from its header, what its load commands say and its text, which may be
/// short; None where the text could not be read.
pub fn read_macho(header: &MachHeader, meta: ([u8; 16], u64), text: Option<Vec<u8>>) -> (r: Option<
    MachoImage,
>)
    ensures
        match (r, text) {
            (Some(m), Some(t)) => m == (MachoImage {
                text: t,
                text_vmsize: meta.1,
                cputype: header.cputype,
                cpusubtype: header.cpusubtype,
                uuid: meta.0,
            }),
            (None, None) => true,
            _ => false,
        },
{
    match text {
        Some(t) => Some(
            MachoImage {
                text: t,
                text_vmsize: meta.1,
                cputype: header.cputype,
                cpusubtype: header.cpusubtype,
                uuid: meta.0,
            },
        ),
        None => None,
    }
}

/// A segment's command: its kind and size, its name in sixteen bytes, where it is and how
/// large. Of the text segment the size is kept, of another nothing.
#[verifier::spinoff_prover]
#[verifier::rlimit(40)]
pub proof fn lemma_segment_read_back(
    f: Found,
    before: Seq<u8>,
    size: u32,
    name: Seq<u8>,
    address: u64,
    vmsize: u64,
    rest: Seq<u8>,
)
    requires
        size >= 72,
        name.len() == 16,
    ensures
        ({
            let cmds = before + bytes::words32(seq![0x19u32, size]) + name + bytes::words64(
                seq![address, vmsize],
            ) + rest;
            let g = with_command(f, cmds, before.len() as int);
            &&& g.uuid == f.uuid
            &&& bytes::before(name, 0) == "__TEXT".spec_bytes() ==> g.text_vmsize == vmsize
            &&& bytes::before(name, 0) != "__TEXT".spec_bytes() ==> g == f
        }),
{
    let off = before.len() as int;
    let heads = seq![0x19u32, size];
    let places = seq![address, vmsize];
    let a = bytes::words32(heads);
    let c = bytes::words64(places);
    bytes::lemma_words32_read_back(heads);
    bytes::lemma_words64_read_back(places);
    let b = before + a + name + c + rest;
    assert(b.subrange(off, off + 8) =~= a);
    assert(b.subrange(off + 8, off + 24) =~= name);
    assert(b.subrange(off + 24, off + 40) =~= c);
    bytes::lemma_numbers_in_part(b, off, a);
    bytes::lemma_numbers_in_part(b, off + 24, c);
    assert(bytes::le_u32(a, 4 * 0int) == heads[0] && bytes::le_u32(b, off + 4 * 0int) == heads[0]);
    assert(bytes::le_u32(a, 4 * 1int) == heads[1] && bytes::le_u32(b, off + 4 * 1int) == heads[1]);
    assert(bytes::le_u64(c, 8 * 1int) == places[1] && bytes::le_u64(b, off + 24 + 8 * 1int)
        == places[1]);
}

/// An identity's command: its kind and size, then the sixteen bytes, which are kept. A
/// command of any other kind but a segment's is passed over.
pub proof fn lemma_identity_read_back(
    f: Found,
    before: Seq<u8>,
    kind: u32,
    size: u32,
    uuid: Seq<u8>,
    rest: Seq<u8>,
)
    requires
        size >= 24,
        uuid.len() == 16,
        kind != 0x19,
    ensures
        ({
            let cmds = before + bytes::words32(seq![kind, size]) + uuid + rest;
            let g = with_command(f, cmds, before.len() as int);
            &&& g.text_vmsize == f.text_vmsize
            &&& kind == 0x1b ==> g.uuid == uuid
            &&& kind != 0x1b ==> g == f
        }),
{
    let off = before.len() as int;
    let heads = seq![kind, size];
    let a = bytes::words32(heads);
    bytes::lemma_words32_read_back(heads);
    let b = before + a + uuid + rest;
    assert(b.subrange(off, off + 8) =~= a);
    assert(b.subrange(off + 8, off + 24) =~= uuid);
    bytes::lemma_numbers_in_part(b, off, a);
    assert(bytes::le_u32(a, 4 * 0int) == heads[0] && bytes::le_u32(b, off + 4 * 0int) == heads[0]);
    assert(bytes::le_u32(a, 4 * 1int) == heads[1] && bytes::le_u32(b, off + 4 * 1int) == heads[1]);
}

/// The commands are read one behind the other: where the first stands whole, the rest are
/// read from its end on; where it is cut off or has no size, nothing is.
pub proof fn lemma_commands_follow(f: Found, cmds: Seq<u8>, off: int, n: nat)
    requires
        0 <= off,
    ensures
        ({
            let size = bytes::le_u32(cmds, off + 4);
            &&& off + 8 <= cmds.len() && size > 0 && off + size <= cmds.len() && n > 0
                ==> commands(f, cmds, off, n) == commands(
                with_command(f, cmds, off),
                cmds,
                off + size,
                (n - 1) as nat,
            )
            &&& off + 8 > cmds.len() || size == 0 || off + size > cmds.len() || n == 0
                ==> commands(f, cmds, off, n) == f
        }),
{
}

} // verus!
