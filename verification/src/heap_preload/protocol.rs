//! The control channel of the preload. It listens on a socket named by its
//! process; the recorder connects, sends the configuration, and hands over the
//! memory of the ring.

use crate::bytes;
use crate::bytes::{read_le_u32, read_le_u64, u32_as_i32};
use crate::digits;
use crate::digits::{append_ascii, signed_digits};
use vstd::bytes::*;
use vstd::prelude::*;
use vstd::string::*;

verus! {

/// How many bytes a socket's path may have, with the NUL.
pub const SUN_PATH_BYTES: usize = 104;

/// The handshake: version, ring size, sample interval and reserved bytes.
pub const ATTACH_CONFIG_BYTES: usize = 32;

/// Where the descriptor stands in the control message, and how long the message
/// has to be to hold it.
pub const CMSG_DATA_OFFSET: usize = 16;

pub const CMSG_BYTES: usize = 20;

/// The first message of the recorder.
#[derive(Clone, Copy)]
pub struct AttachConfig {
    pub version: u32,
    pub ring_size: u32,
    pub sample_interval: u64,
    pub reserved: [u8; 16],
}

#[derive(Clone, Copy, PartialEq, Eq, Structural, Debug)]
pub enum ProtocolError {
    PathTooLong,
    SocketCreate,
    SocketBind,
    SocketListen,
    SocketAccept,
    RecvFailed,
    NoFdReceived,
}

/// The path of a process's socket.
pub open spec fn path_of(pid: i32) -> Seq<u8> {
    "/tmp/sismo-heap-".spec_bytes() + digits::ascii(digits::signed(pid as int)) + ".sock".spec_bytes()
}

/// The path of a process's socket.
pub fn socket_path_bytes(pid: i32) -> (r: Vec<u8>)
    ensures
        r@ == path_of(pid),
{
    let mut r: Vec<u8> = Vec::new();
    r.extend_from_slice("/tmp/sismo-heap-".as_bytes());
    let d = signed_digits(pid);
    append_ascii(&mut r, &d);
    r.extend_from_slice(".sock".as_bytes());
    assert(r@ =~= path_of(pid));
    r
}

/// Put the path of a process's socket into `buf`, with a NUL behind it: its length
/// without the NUL, or None, and nothing put, where it does not fit.
pub fn socket_path(pid: i32, buf: &mut [u8]) -> (r: Option<usize>)
    ensures
        final(buf)@.len() == old(buf)@.len(),
        ({
            let p = path_of(pid);
            let fits = p.len() + 1 <= old(buf)@.len() && p.len() < SUN_PATH_BYTES;
            &&& r == (if fits {
                Some(p.len() as usize)
            } else {
                None
            })
            &&& !fits ==> final(buf)@ == old(buf)@
            &&& fits ==> final(buf)@ == p + seq![0u8] + old(buf)@.skip(p.len() as int + 1)
        }),
{
    let p = socket_path_bytes(pid);
    let n: usize = p.len();
    if n >= SUN_PATH_BYTES || n + 1 > buf.len() {
        return None;
    }
    let ghost before = buf@;
    let mut i: usize = 0;
    while i < n
        invariant
            i <= n,
            n == p@.len(),
            n < buf@.len(),
            buf@.len() == before.len(),
            forall|j: int| 0 <= j < i ==> buf@[j] == p@[j],
            forall|j: int| i <= j < before.len() ==> buf@[j] == before[j],
        decreases n - i,
    {
        buf[i] = p[i];
        i += 1;
    }
    buf[n] = 0;
    assert(buf@ =~= p@ + seq![0u8] + before.skip(n as int + 1));
    Some(n)
}

/// The length that a socket address with a path of `n` bytes states: the length
/// and family bytes, the path and its NUL.
pub fn sun_len(n: usize) -> (r: u8)
    requires
        n < SUN_PATH_BYTES,
    ensures
        r == n + 3,
{
    (2 + n + 1) as u8
}

/// The handshake's bytes.
pub open spec fn config_bytes(c: AttachConfig) -> Seq<u8> {
    spec_u32_to_le_bytes(c.version) + spec_u32_to_le_bytes(c.ring_size) + spec_u64_to_le_bytes(
        c.sample_interval,
    ) + c.reserved@
}

/// The handshake that the recorder sends.
pub fn encode_config(c: &AttachConfig) -> (r: Vec<u8>)
    ensures
        r@ == config_bytes(*c),
        r@.len() == ATTACH_CONFIG_BYTES,
{
    let mut r: Vec<u8> = Vec::new();
    let mut a = u32_to_le_bytes(c.version);
    let mut b = u32_to_le_bytes(c.ring_size);
    let mut d = u64_to_le_bytes(c.sample_interval);
    r.append(&mut a);
    r.append(&mut b);
    r.append(&mut d);
    r.extend_from_slice(c.reserved.as_slice());
    assert(r@ =~= config_bytes(*c));
    r
}

/// Whether `c` is what a handshake's bytes say.
pub open spec fn is_config(b: Seq<u8>, c: AttachConfig) -> bool {
    &&& c.version == bytes::le_u32(b, 0)
    &&& c.ring_size == bytes::le_u32(b, 4)
    &&& c.sample_interval == bytes::le_u64(b, 8)
    &&& c.reserved@ == b.subrange(16, 32)
}

/// Read the reserved bytes of a handshake.
fn reserved_of(b: &[u8]) -> (r: [u8; 16])
    requires
        b@.len() == ATTACH_CONFIG_BYTES,
    ensures
        r@ == b@.subrange(16, 32),
{
    let mut r: [u8; 16] = [0u8; 16];
    let mut i: usize = 0;
    while i < 16
        invariant
            i <= 16,
            b@.len() == 32,
            forall|j: int| 0 <= j < i ==> r@[j] == b@[16 + j],
        decreases 16 - i,
    {
        r[i] = b[16 + i];
        i += 1;
    }
    assert(r@ =~= b@.subrange(16, 32));
    r
}

/// Read a handshake.
pub fn decode_config(b: &[u8]) -> (c: AttachConfig)
    requires
        b@.len() == ATTACH_CONFIG_BYTES,
    ensures
        is_config(b@, c),
{
    AttachConfig {
        version: read_le_u32(b, 0),
        ring_size: read_le_u32(b, 4),
        sample_interval: read_le_u64(b, 8),
        reserved: reserved_of(b),
    }
}

/// The descriptor that a control message hands over.
pub open spec fn handed_over(control: Seq<u8>) -> i32 {
    bytes::bits_to_i32(bytes::le_u32(control, CMSG_DATA_OFFSET as int) as int)
}

/// What came of a handshake: `received` bytes of message in `message`, and
/// `control_len` bytes of control message in `control`. The configuration and the
/// descriptor of the ring's memory, where the message has its full length and a
/// descriptor came with it.
pub fn receive(received: i64, message: &[u8], control_len: usize, control: &[u8]) -> (r: Result<
    (AttachConfig, i32),
    ProtocolError,
>)
    requires
        message@.len() == ATTACH_CONFIG_BYTES,
        control@.len() == CMSG_BYTES,
    ensures
        match r {
            Ok(v) => {
                &&& received == ATTACH_CONFIG_BYTES
                &&& control_len >= CMSG_BYTES
                &&& handed_over(control@) >= 0
                &&& is_config(message@, v.0)
                &&& v.1 == handed_over(control@)
            },
            Err(e) => if received != ATTACH_CONFIG_BYTES {
                e == ProtocolError::RecvFailed
            } else {
                e == ProtocolError::NoFdReceived && (control_len < CMSG_BYTES || handed_over(
                    control@,
                ) < 0)
            },
        },
{
    if received != ATTACH_CONFIG_BYTES as i64 {
        return Err(ProtocolError::RecvFailed);
    }
    if control_len < CMSG_BYTES {
        return Err(ProtocolError::NoFdReceived);
    }
    let fd: i32 = u32_as_i32(read_le_u32(control, CMSG_DATA_OFFSET));
    if fd < 0 {
        return Err(ProtocolError::NoFdReceived);
    }
    Ok((decode_config(message), fd))
}

/// What the preload reads is what the recorder sent.
pub proof fn lemma_handshake(c: AttachConfig, d: AttachConfig)
    requires
        is_config(config_bytes(c), d),
    ensures
        d.version == c.version,
        d.ring_size == c.ring_size,
        d.sample_interval == c.sample_interval,
        d.reserved@ == c.reserved@,
{
    lemma_auto_spec_u32_to_from_le_bytes();
    lemma_auto_spec_u64_to_from_le_bytes();
    let b = config_bytes(c);
    assert(b.subrange(0, 4) =~= spec_u32_to_le_bytes(c.version));
    assert(b.subrange(4, 8) =~= spec_u32_to_le_bytes(c.ring_size));
    assert(b.subrange(8, 16) =~= spec_u64_to_le_bytes(c.sample_interval));
    assert(b.subrange(16, 32) =~= c.reserved@);
}

/// The descriptor that was put into a control message is the one that it hands over.
pub proof fn lemma_descriptor_read_back(head: Seq<u8>, fd: u32, rest: Seq<u8>)
    requires
        head.len() == 16,
    ensures
        handed_over(head + bytes::words32(seq![fd]) + rest) == bytes::bits_to_i32(fd as int),
{
    let w = bytes::words32(seq![fd]);
    bytes::lemma_words32_read_back(seq![fd]);
    assert(bytes::le_u32(w, 4 * 0int) == seq![fd][0]);
    assert((head + w + rest).subrange(16, 20) =~= w.subrange(0, 4));
}

} // verus!
