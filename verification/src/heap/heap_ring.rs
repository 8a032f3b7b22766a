//! The ring buffer between the profiled process, which writes allocation records,
//! and the recorder, which reads them.
//!
//! A record is a header of [`HEADER_BYTES`], whose first four bytes hold the
//! payload's length, and the payload, padded to eight bytes. A writer first
//! reserves room, then fills the payload in and publishes it by setting the
//! length; a length of 0 means that the record was not published yet. Positions
//! only grow; a position stands for the byte at its remainder by the ring's size,
//! so that a record may run over the end and go on at the start.

use vstd::arithmetic::div_mod::*;
use vstd::arithmetic::power2::*;
use vstd::prelude::*;

verus! {

pub const HEADER_BYTES: u64 = 8;

pub const RECORD_ALIGN: u64 = 8;

/// Why a ring could not be made.
#[derive(Clone, Copy, PartialEq, Eq, Structural, Debug)]
pub enum RingError {
    InvalidSize,
    ShmCreate,
    Truncate,
    ReserveAddrSpace,
    MmapMeta,
    MmapMirror,
}

/// Whether `n` is a power of two.
pub open spec fn is_power_of_two(n: nat) -> bool {
    exists|k: nat| #[trigger] pow2(k) == n
}

/// `n` rounded up to a multiple of `a`.
pub open spec fn rounded_up(n: nat, a: nat) -> nat {
    ((n + a - 1) / a as int * a) as nat
}

/// `n` rounded up to a multiple of eight.
pub fn align_up(n: u64) -> (r: u64)
    requires
        n <= u64::MAX - 7,
    ensures
        r == rounded_up(n as nat, RECORD_ALIGN as nat),
        n <= r < n + 8,
        r % 8 == 0,
{
    (n + 7) / 8 * 8
}

/// Whether `n` is a power of two.
fn power_of_two(n: u64) -> (r: bool)
    ensures
        r == is_power_of_two(n as nat),
{
    let mut m: u64 = n;
    proof {
        lemma2_to64();
    }
    if m == 0 {
        proof {
            assert forall|k: nat| #[trigger] pow2(k) != 0 by {
                lemma_pow2_pos(k);
            }
        }
        return false;
    }
    let ghost mut twos: nat = 0;
    while m % 2 == 0
        invariant
            m > 0,
            n == m * pow2(twos),
        decreases m,
    {
        proof {
            lemma_pow2_unfold(twos + 1);
            assert(m == 2 * (m / 2));
            assert(m * pow2(twos) == (m / 2) * (2 * pow2(twos))) by (nonlinear_arith)
                requires
                    m == 2 * (m / 2),
            ;
            twos = twos + 1;
        }
        m = m / 2;
    }
    proof {
        if m == 1 {
            assert(pow2(twos) == n);
        } else if is_power_of_two(n as nat) {
            let k = choose|k: nat| #[trigger] pow2(k) == n as nat;
            lemma_odd_factor(m as nat, twos, k);
        }
    }
    m == 1
}

/// An odd number times a power of two is no power of two, but for 1.
proof fn lemma_odd_factor(m: nat, twos: nat, k: nat)
    requires
        m % 2 == 1,
        m * pow2(twos) == pow2(k),
    ensures
        m == 1,
    decreases twos,
{
    lemma2_to64();
    if twos == 0 {
        assert(pow2(0) == 1);
        assert(m * 1 == m);
        if k > 0 {
            lemma_pow2_unfold(k);
            assert(pow2(k) == 2 * pow2((k - 1) as nat));
        }
    } else {
        lemma_pow2_unfold(twos);
        let t = pow2((twos - 1) as nat);
        assert(m * (2 * t) == 2 * (m * t)) by (nonlinear_arith);
        if k == 0 {
            assert(pow2(0) == 1);
        } else {
            lemma_pow2_unfold(k);
            lemma_odd_factor(m, (twos - 1) as nat, (k - 1) as nat);
        }
    }
}

/// A record of the ring: where it starts, the length of its payload, and the
/// payload once it was published.
pub struct Rec {
    pub pos: nat,
    pub len: nat,
    pub payload: Option<Seq<u8>>,
}

/// How many bytes a record with a payload of `len` bytes takes.
pub open spec fn record_bytes(len: nat) -> nat {
    rounded_up(len + HEADER_BYTES as nat, RECORD_ALIGN as nat)
}

/// The counters of the ring.
#[derive(Clone, Copy, PartialEq, Eq, Structural, Debug)]
pub struct RingMeta {
    pub write_pos: u64,
    pub read_pos: u64,
    pub bytes_written: u64,
    pub num_writes_succeeded: u64,
    pub num_writes_overflow: u64,
    pub num_reads_succeeded: u64,
    pub num_reads_nodata: u64,
}

pub struct RingBuffer {
    pub meta: RingMeta,
    pub data: Vec<u8>,
    pub size: u64,
    /// The records that were reserved and not read yet.
    pub recs: Ghost<Seq<Rec>>,
}

/// The byte at a position.
pub open spec fn byte_at(data: Seq<u8>, size: nat, pos: nat) -> u8 {
    data[(pos % size) as int]
}

/// The length that the header at a position holds.
pub open spec fn header_at(data: Seq<u8>, size: nat, pos: nat) -> nat {
    byte_at(data, size, pos) as nat + byte_at(data, size, pos + 1) as nat * 0x100 + byte_at(
        data,
        size,
        pos + 2,
    ) as nat * 0x1_0000 + byte_at(data, size, pos + 3) as nat * 0x100_0000
}

/// Whether the ring's bytes hold a record: the length and the payload of one that
/// was published, the length 0 of one that was not.
pub open spec fn holds_rec(data: Seq<u8>, size: nat, r: Rec) -> bool {
    match r.payload {
        Some(p) => {
            &&& p.len() == r.len
            &&& header_at(data, size, r.pos) == r.len
            &&& forall|j: nat|
                j < r.len ==> #[trigger] byte_at(data, size, r.pos + 8 + j) == p[j as int]
        },
        None => header_at(data, size, r.pos) == 0,
    }
}

/// The records follow one another from `from` to `to`.
pub open spec fn chained(recs: Seq<Rec>, from: nat, to: nat) -> bool
    decreases recs.len(),
{
    if recs.len() == 0 {
        from == to
    } else {
        recs[0].pos == from && chained(recs.drop_first(), from + record_bytes(recs[0].len), to)
    }
}

proof fn lemma_rounded(n: nat)
    ensures
        n <= rounded_up(n, 8) < n + 8,
{
}

/// Each record of a chain lies within it, and a later one after an earlier one.
proof fn lemma_chained(recs: Seq<Rec>, from: nat, to: nat, i: int)
    requires
        chained(recs, from, to),
        0 <= i < recs.len(),
    ensures
        from <= recs[i].pos,
        recs[i].pos + record_bytes(recs[i].len) <= to,
        from <= to,
        forall|j: int|
            i < j < recs.len() ==> recs[i].pos + record_bytes(recs[i].len) <= (
            #[trigger] recs[j]).pos,
    decreases recs.len(),
{
    let rest = recs.drop_first();
    let next = from + record_bytes(recs[0].len);
    if i > 0 {
        lemma_chained(rest, next, to, i - 1);
        assert(rest[i - 1] == recs[i]);
        assert forall|j: int| i < j < recs.len() implies recs[i].pos + record_bytes(recs[i].len)
            <= (#[trigger] recs[j]).pos by {
            assert(rest[j - 1] == recs[j]);
        }
    } else {
        lemma_chain_grows(rest, next, to);
        assert forall|j: int| 0 < j < recs.len() implies recs[0].pos + record_bytes(recs[0].len)
            <= (#[trigger] recs[j]).pos by {
            lemma_chained(rest, next, to, j - 1);
            assert(rest[j - 1] == recs[j]);
        }
    }
}

proof fn lemma_chain_grows(recs: Seq<Rec>, from: nat, to: nat)
    requires
        chained(recs, from, to),
    ensures
        from <= to,
    decreases recs.len(),
{
    if recs.len() > 0 {
        lemma_chain_grows(recs.drop_first(), from + record_bytes(recs[0].len), to);
    }
}

proof fn lemma_chain_push(recs: Seq<Rec>, from: nat, to: nat, r: Rec)
    requires
        chained(recs, from, to),
        r.pos == to,
    ensures
        chained(recs.push(r), from, to + record_bytes(r.len)),
    decreases recs.len(),
{
    let all = recs.push(r);
    if recs.len() == 0 {
        assert(all.drop_first() =~= Seq::empty());
        assert(chained(all.drop_first(), from + record_bytes(r.len), to + record_bytes(r.len)));
    } else {
        lemma_chain_push(recs.drop_first(), from + record_bytes(recs[0].len), to, r);
        assert(all.drop_first() =~= recs.drop_first().push(r));
        assert(all[0] == recs[0]);
    }
}

/// Publishing a record keeps the chain.
proof fn lemma_chain_update(recs: Seq<Rec>, from: nat, to: nat, i: int, r: Rec)
    requires
        chained(recs, from, to),
        0 <= i < recs.len(),
        r.pos == recs[i].pos,
        r.len == recs[i].len,
    ensures
        chained(recs.update(i, r), from, to),
    decreases recs.len(),
{
    let all = recs.update(i, r);
    let next = from + record_bytes(recs[0].len);
    if i == 0 {
        assert(all.drop_first() =~= recs.drop_first());
    } else {
        lemma_chain_update(recs.drop_first(), next, to, i - 1, r);
        assert(all.drop_first() =~= recs.drop_first().update(i - 1, r));
        assert(all[0] == recs[0]);
    }
}

/// Two positions less than the ring's size apart stand for different bytes.
proof fn lemma_apart(size: nat, a: nat, b: nat)
    requires
        a < b,
        b - a < size,
    ensures
        a % size != b % size,
{
    if a % size == b % size {
        lemma_fundamental_div_mod(a as int, size as int);
        lemma_fundamental_div_mod(b as int, size as int);
        let qa = a as int / size as int;
        let qb = b as int / size as int;
        assert(b - a == size * qb - size * qa);
        assert(size * qb - size * qa == size * (qb - qa)) by (nonlinear_arith);
        let d = qb - qa;
        assert(d >= 1) by (nonlinear_arith)
            requires
                size * d == b - a,
                b - a > 0,
                size > 0,
        ;
        assert(size * d >= size) by (nonlinear_arith)
            requires
                d >= 1,
                size > 0,
        ;
    }
}

/// A record that no written position is in is held as before.
proof fn lemma_holds_frame(a: Seq<u8>, b: Seq<u8>, size: nat, r: Rec)
    requires
        holds_rec(a, size, r),
        forall|p: nat|
            r.pos <= p < r.pos + record_bytes(r.len) ==> #[trigger] byte_at(b, size, p) == byte_at(
                a,
                size,
                p,
            ),
    ensures
        holds_rec(b, size, r),
{
    lemma_rounded(r.len + 8);
    assert(byte_at(b, size, r.pos) == byte_at(a, size, r.pos));
    assert(byte_at(b, size, r.pos + 1) == byte_at(a, size, r.pos + 1));
    assert(byte_at(b, size, r.pos + 2) == byte_at(a, size, r.pos + 2));
    assert(byte_at(b, size, r.pos + 3) == byte_at(a, size, r.pos + 3));
    if let Some(p) = r.payload {
        assert forall|j: nat| j < r.len implies #[trigger] byte_at(b, size, r.pos + 8 + j)
            == p[j as int] by {
            assert(byte_at(b, size, r.pos + 8 + j) == byte_at(a, size, r.pos + 8 + j));
        }
    }
}

/// The bytes at the positions from `rd` to `wr` are the same, but for those from
/// `lo` to `hi`.
pub open spec fn kept_outside(
    a: Seq<u8>,
    b: Seq<u8>,
    size: nat,
    rd: nat,
    wr: nat,
    lo: nat,
    hi: nat,
) -> bool {
    forall|p: nat|
        rd <= p < wr && !(lo <= p < hi) ==> #[trigger] byte_at(b, size, p) == byte_at(a, size, p)
}

/// Writing inside one record keeps the others.
proof fn lemma_publish_frame(
    recs: Seq<Rec>,
    data0: Seq<u8>,
    data1: Seq<u8>,
    data2: Seq<u8>,
    size: nat,
    rd: nat,
    wr: nat,
    k: int,
)
    requires
        chained(recs, rd, wr),
        0 <= k < recs.len(),
        forall|i: int| 0 <= i < recs.len() ==> holds_rec(data0, size, #[trigger] recs[i]),
        kept_outside(
            data0,
            data1,
            size,
            rd,
            wr,
            recs[k].pos + 8,
            recs[k].pos + 8 + recs[k].len,
        ),
        kept_outside(data1, data2, size, rd, wr, recs[k].pos, recs[k].pos + 4),
    ensures
        forall|i: int|
            0 <= i < recs.len() && i != k ==> holds_rec(data2, size, #[trigger] recs[i]),
{
    lemma_chained(recs, rd, wr, k);
    lemma_rounded(recs[k].len + 8);
    assert forall|i: int| 0 <= i < recs.len() && i != k implies holds_rec(
        data2,
        size,
        #[trigger] recs[i],
    ) by {
        let q = recs[i];
        lemma_chained(recs, rd, wr, i);
        assert forall|p: nat| q.pos <= p < q.pos + record_bytes(q.len) implies #[trigger] byte_at(
            data2,
            size,
            p,
        ) == byte_at(data0, size, p) by {
            assert(byte_at(data2, size, p) == byte_at(data1, size, p));
            assert(byte_at(data1, size, p) == byte_at(data0, size, p));
        }
        lemma_holds_frame(data0, data2, size, q);
    }
}

/// What comes of asking for room.
#[derive(Clone, Copy, PartialEq, Eq, Structural, Debug)]
pub enum Reservation {
    /// The ring never has so much.
    TooLarge,
    /// The ring is full.
    Full,
    /// The record starts `offset` bytes into the ring; the next one at position
    /// `next`.
    At { offset: u64, next: u64 },
}

/// Ask for room for a payload in a ring of `size` bytes with these positions.
pub fn reserve(write_pos: u64, read_pos: u64, size: u64, payload_size: u32) -> (r: Reservation)
    requires
        size > 0,
        read_pos <= write_pos,
        write_pos - read_pos <= size,
        write_pos + record_bytes(payload_size as nat) <= u64::MAX,
    ensures
        r == ({
            let total = record_bytes(payload_size as nat);
            if total > size {
                Reservation::TooLarge
            } else if write_pos - read_pos + total > size {
                Reservation::Full
            } else {
                Reservation::At { offset: write_pos % size, next: (write_pos + total) as u64 }
            }
        }),
{
    proof {
        lemma_rounded((payload_size as nat) + 8);
    }
    let total: u64 = align_up(payload_size as u64 + HEADER_BYTES);
    if total > size {
        return Reservation::TooLarge;
    }
    if total > size - (write_pos - read_pos) {
        return Reservation::Full;
    }
    Reservation::At { offset: write_pos % size, next: write_pos + total }
}

/// How far into the ring the next record to read starts; None where all were read.
pub fn next_record(read_pos: u64, write_pos: u64, size: u64) -> (offset: Option<u64>)
    requires
        size > 0,
    ensures
        offset == (if read_pos >= write_pos {
            None
        } else {
            Some(read_pos % size)
        }),
{
    if read_pos >= write_pos {
        return None;
    }
    Some(read_pos % size)
}

/// The position behind a record that starts at `read_pos`.
pub fn behind_record(read_pos: u64, payload_len: u32) -> (next: u64)
    requires
        read_pos + record_bytes(payload_len as nat) <= u64::MAX,
    ensures
        next == read_pos + record_bytes(payload_len as nat),
{
    proof {
        lemma_rounded((payload_len as nat) + 8);
    }
    read_pos + align_up(payload_len as u64 + HEADER_BYTES)
}

impl RingBuffer {
    pub open spec fn wf(self) -> bool {
        &&& self.size > 0
        &&& self.data@.len() == self.size
        &&& self.meta.read_pos <= self.meta.write_pos
        &&& self.meta.write_pos - self.meta.read_pos <= self.size
        &&& chained(self.recs@, self.meta.read_pos as nat, self.meta.write_pos as nat)
        &&& forall|i: int|
            0 <= i < self.recs@.len() ==> (#[trigger] self.recs@[i]).len <= u32::MAX && holds_rec(
                self.data@,
                self.size as nat,
                self.recs@[i],
            )
    }

    /// A ring of `ring_size` bytes, which has to be a power of two and at least a
    /// page.
    pub fn create(ring_size: u64, page_size: u64) -> (r: Result<RingBuffer, RingError>)
        requires
            ring_size <= usize::MAX,
        ensures
            match r {
                Ok(b) => is_power_of_two(ring_size as nat) && ring_size >= page_size && b.wf()
                    && b.size == ring_size && b.recs@.len() == 0 && b.meta == fresh_meta(),
                Err(e) => e == RingError::InvalidSize && !(is_power_of_two(ring_size as nat)
                    && ring_size >= page_size),
            },
    {
        if !power_of_two(ring_size) || ring_size < page_size {
            return Err(RingError::InvalidSize);
        }
        proof {
            let k = choose|k: nat| #[trigger] pow2(k) == ring_size as nat;
            lemma_pow2_pos(k);
        }
        let mut data: Vec<u8> = Vec::new();
        let mut i: u64 = 0;
        while i < ring_size
            invariant
                i <= ring_size,
                data@.len() == i,
            decreases ring_size - i,
        {
            data.push(0);
            i += 1;
        }
        Ok(
            RingBuffer {
                meta: RingMeta {
                    write_pos: 0,
                    read_pos: 0,
                    bytes_written: 0,
                    num_writes_succeeded: 0,
                    num_writes_overflow: 0,
                    num_reads_succeeded: 0,
                    num_reads_nodata: 0,
                },
                data,
                size: ring_size,
                recs: Ghost(Seq::empty()),
            },
        )
    }

    /// The byte at a position.
    fn get(&self, pos: u64) -> (b: u8)
        requires
            self.size > 0,
            self.data@.len() == self.size,
        ensures
            b == byte_at(self.data@, self.size as nat, pos as nat),
    {
        let k: u64 = pos % self.size;
        assert(k < self.data.len());
        self.data[k as usize]
    }

    /// Set the byte at a position.
    fn put(&mut self, pos: u64, b: u8)
        requires
            old(self).size > 0,
            old(self).data@.len() == old(self).size,
        ensures
            final(self).data@.len() == old(self).data@.len(),
            final(self).size == old(self).size,
            final(self).meta == old(self).meta,
            final(self).recs == old(self).recs,
            byte_at(final(self).data@, final(self).size as nat, pos as nat) == b,
            forall|p: nat|
                p % (old(self).size as nat) != pos as nat % (old(self).size as nat) ==> #[trigger]
                byte_at(final(self).data@, final(self).size as nat, p) == byte_at(
                    old(self).data@,
                    old(self).size as nat,
                    p,
                ),
    {
        let k: u64 = pos % self.size;
        assert(k < self.data.len());
        self.data.set(k as usize, b);
        proof {
            assert forall|p: nat|
                p % (old(self).size as nat) != pos as nat % (old(self).size as nat) implies #[trigger]
            byte_at(self.data@, self.size as nat, p) == byte_at(
                old(self).data@,
                old(self).size as nat,
                p,
            ) by {
                lemma_mod_bound(p as int, old(self).size as int);
            }
        }
    }

    /// Reserve room for a payload: where the record starts, or None where the ring
    /// is full or never has room for it.
    pub fn begin_write(&mut self, payload_size: u32) -> (slot: Option<u64>)
        requires
            old(self).wf(),
            old(self).meta.write_pos + record_bytes(payload_size as nat) <= u64::MAX,
        ensures
            final(self).wf(),
            final(self).size == old(self).size,
            ({
                let total = record_bytes(payload_size as nat);
                let used = old(self).meta.write_pos - old(self).meta.read_pos;
                let m = old(self).meta;
                if total > old(self).size {
                    slot is None && final(self).recs == old(self).recs && final(self).meta == m
                } else if used + total > old(self).size {
                    slot is None && final(self).recs == old(self).recs && final(self).meta == (
                    RingMeta {
                        num_writes_overflow: vstd::wrapping::u64_specs::wrapping_add(
                            m.num_writes_overflow,
                            1,
                        ),
                        ..m
                    })
                } else {
                    &&& slot == Some(m.write_pos)
                    &&& final(self).recs@ == old(self).recs@.push(
                        Rec {
                            pos: m.write_pos as nat,
                            len: payload_size as nat,
                            payload: None,
                        },
                    )
                    &&& final(self).meta == (RingMeta {
                        write_pos: (m.write_pos + total) as u64,
                        bytes_written: vstd::wrapping::u64_specs::wrapping_add(
                            m.bytes_written,
                            payload_size as u64,
                        ),
                        num_writes_succeeded: vstd::wrapping::u64_specs::wrapping_add(
                            m.num_writes_succeeded,
                            1,
                        ),
                        ..m
                    })
                }
            }),
    {
        proof {
            lemma_rounded((payload_size as nat) + 8);
        }
        let wr: u64 = self.meta.write_pos;
        let rd: u64 = self.meta.read_pos;
        let next: u64 = match reserve(wr, rd, self.size, payload_size) {
            Reservation::TooLarge => {
                return None;
            },
            Reservation::Full => {
                self.meta.num_writes_overflow = self.meta.num_writes_overflow.wrapping_add(1);
                return None;
            },
            Reservation::At { offset, next } => next,
        };
        let ghost data0 = self.data@;
        let ghost size = self.size as nat;
        self.put(wr, 0);
        proof {
            lemma_apart(size, wr as nat, (wr + 1) as nat);
        }
        self.put(wr + 1, 0);
        proof {
            lemma_apart(size, wr as nat, (wr + 2) as nat);
            lemma_apart(size, (wr + 1) as nat, (wr + 2) as nat);
        }
        self.put(wr + 2, 0);
        proof {
            lemma_apart(size, wr as nat, (wr + 3) as nat);
            lemma_apart(size, (wr + 1) as nat, (wr + 3) as nat);
            lemma_apart(size, (wr + 2) as nat, (wr + 3) as nat);
        }
        self.put(wr + 3, 0);
        self.meta.write_pos = next;
        self.meta.bytes_written = self.meta.bytes_written.wrapping_add(payload_size as u64);
        self.meta.num_writes_succeeded = self.meta.num_writes_succeeded.wrapping_add(1);
        let ghost recs0 = self.recs@;
        proof {
            let r = Rec { pos: wr as nat, len: payload_size as nat, payload: None };
            lemma_chain_push(recs0, rd as nat, wr as nat, r);
            self.recs@ = recs0.push(r);
            assert forall|i: int| 0 <= i < self.recs@.len() implies (#[trigger] self.recs@[i]).len
                <= u32::MAX && holds_rec(self.data@, size, self.recs@[i]) by {
                if i < recs0.len() {
                    let q = recs0[i];
                    assert(self.recs@[i] == q);
                    lemma_chained(recs0, rd as nat, wr as nat, i);
                    assert forall|p: nat|
                        q.pos <= p < q.pos + record_bytes(q.len) implies #[trigger] byte_at(
                        self.data@,
                        size,
                        p,
                    ) == byte_at(data0, size, p) by {
                        lemma_apart(size, p, wr as nat);
                        lemma_apart(size, p, (wr + 1) as nat);
                        lemma_apart(size, p, (wr + 2) as nat);
                        lemma_apart(size, p, (wr + 3) as nat);
                    }
                    lemma_holds_frame(data0, self.data@, size, q);
                } else {
                    assert(self.recs@[i] == r);
                }
            }
        }
        Some(wr)
    }

    /// Copy a payload to a position; the other bytes from `rd` to `wr` stay.
    fn put_payload(&mut self, at: u64, payload: &[u8], rd: u64, wr: u64)
        requires
            old(self).size > 0,
            old(self).data@.len() == old(self).size,
            rd <= at,
            at + payload@.len() <= wr,
            wr - rd <= old(self).size,
        ensures
            final(self).data@.len() == old(self).data@.len(),
            final(self).size == old(self).size,
            final(self).meta == old(self).meta,
            final(self).recs == old(self).recs,
            forall|x: nat|
                x < payload@.len() ==> #[trigger] byte_at(
                    final(self).data@,
                    old(self).size as nat,
                    at as nat + x,
                ) == payload@[x as int],
            kept_outside(
                old(self).data@,
                final(self).data@,
                old(self).size as nat,
                rd as nat,
                wr as nat,
                at as nat,
                at as nat + payload@.len(),
            ),
    {
        let ghost size = self.size as nat;
        let ghost data0 = self.data@;
        let len: usize = payload.len();
        let mut j: usize = 0;
        while j < len
            invariant
                j <= len,
                len == payload@.len(),
                rd <= at,
                at + len <= wr,
                wr - rd <= size,
                size == self.size as nat,
                self.size > 0,
                self.data@.len() == self.size,
                self.size == old(self).size,
                self.meta == old(self).meta,
                self.recs == old(self).recs,
                forall|x: nat|
                    x < j ==> #[trigger] byte_at(self.data@, size, at as nat + x)
                        == payload@[x as int],
                kept_outside(
                    data0,
                    self.data@,
                    size,
                    rd as nat,
                    wr as nat,
                    at as nat,
                    at as nat + j as nat,
                ),
            decreases len - j,
        {
            let p: u64 = at + j as u64;
            let ghost before = self.data@;
            self.put(p, payload[j]);
            proof {
                assert forall|q: nat| rd <= q < wr && q != p implies #[trigger] byte_at(
                    self.data@,
                    size,
                    q,
                ) == byte_at(before, size, q) by {
                    if q < p {
                        lemma_apart(size, q, p as nat);
                    } else {
                        lemma_apart(size, p as nat, q);
                    }
                }
                assert forall|x: nat| x < j + 1 implies #[trigger] byte_at(
                    self.data@,
                    size,
                    at as nat + x,
                ) == payload@[x as int] by {
                    if x < j {
                        assert(byte_at(before, size, at as nat + x) == payload@[x as int]);
                    }
                }
            }
            j += 1;
        }
    }

    /// Set the length in the header at a position; the other bytes from `rd` to
    /// `wr` stay.
    fn put_header(&mut self, at: u64, n: u32, rd: u64, wr: u64)
        requires
            old(self).size > 0,
            old(self).data@.len() == old(self).size,
            rd <= at,
            at + 4 <= wr,
            wr - rd <= old(self).size,
        ensures
            final(self).data@.len() == old(self).data@.len(),
            final(self).size == old(self).size,
            final(self).meta == old(self).meta,
            final(self).recs == old(self).recs,
            header_at(final(self).data@, old(self).size as nat, at as nat) == n,
            kept_outside(
                old(self).data@,
                final(self).data@,
                old(self).size as nat,
                rd as nat,
                wr as nat,
                at as nat,
                at as nat + 4,
            ),
    {
        let b0: u8 = (n % 0x100) as u8;
        let b1: u8 = (n / 0x100 % 0x100) as u8;
        let b2: u8 = (n / 0x1_0000 % 0x100) as u8;
        let b3: u8 = (n / 0x100_0000) as u8;
        self.put(at, b0);
        self.put(at + 1, b1);
        self.put(at + 2, b2);
        self.put(at + 3, b3);
        proof {
            let size = self.size as nat;
            let s = at as nat;
            lemma_apart(size, s, s + 1);
            lemma_apart(size, s, s + 2);
            lemma_apart(size, s, s + 3);
            lemma_apart(size, s + 1, s + 2);
            lemma_apart(size, s + 1, s + 3);
            lemma_apart(size, s + 2, s + 3);
            assert forall|p: nat| rd <= p < wr && !(s <= p < s + 4) implies #[trigger] byte_at(
                self.data@,
                size,
                p,
            ) == byte_at(old(self).data@, size, p) by {
                if p < s {
                    lemma_apart(size, p, s);
                    lemma_apart(size, p, s + 1);
                    lemma_apart(size, p, s + 2);
                    lemma_apart(size, p, s + 3);
                } else {
                    lemma_apart(size, s, p);
                    lemma_apart(size, s + 1, p);
                    lemma_apart(size, s + 2, p);
                    lemma_apart(size, s + 3, p);
                }
            }
            assert(n == b0 as nat + b1 as nat * 0x100 + b2 as nat * 0x1_0000 + b3 as nat
                * 0x100_0000);
        }
    }

    /// Fill in and publish the record at `slot`, which was reserved for a payload
    /// of this length.
    pub fn end_write(&mut self, slot: u64, payload: &[u8])
        requires
            old(self).wf(),
            exists|i: int|
                0 <= i < old(self).recs@.len() && (#[trigger] old(self).recs@[i]).pos == slot
                    && old(self).recs@[i].len == payload@.len(),
        ensures
            final(self).wf(),
            final(self).size == old(self).size,
            final(self).meta == old(self).meta,
            final(self).recs@ == published(old(self).recs@, slot as nat, payload@),
    {
        let ghost data0 = self.data@;
        let ghost size = self.size as nat;
        let ghost recs0 = self.recs@;
        let rd: u64 = self.meta.read_pos;
        let wr: u64 = self.meta.write_pos;
        let ghost k = choose|i: int|
            0 <= i < recs0.len() && (#[trigger] recs0[i]).pos == slot && recs0[i].len
                == payload@.len();
        let ghost rec = recs0[k];
        proof {
            lemma_chained(recs0, rd as nat, wr as nat, k);
            lemma_rounded(rec.len + 8);
        }
        self.put_payload(slot + 8, payload, rd, wr);
        let ghost data1 = self.data@;
        let n: u32 = payload.len() as u32;
        self.put_header(slot, n, rd, wr);
        proof {
            let r = Rec { pos: rec.pos, len: rec.len, payload: Some(payload@) };
            assert(holds_rec(self.data@, size, r)) by {
                assert forall|x: nat| x < r.len implies #[trigger] byte_at(
                    self.data@,
                    size,
                    r.pos + 8 + x,
                ) == payload@[x as int] by {
                    assert((slot + 8) as u64 as nat + x == r.pos + 8 + x);
                    assert(byte_at(data1, size, (slot + 8) as u64 as nat + x)
                        == payload@[x as int]);
                }
            }
            lemma_chain_update(recs0, rd as nat, wr as nat, k, r);
            lemma_published(recs0, rd as nat, wr as nat, k, payload@);
            lemma_publish_frame(recs0, data0, data1, self.data@, size, rd as nat, wr as nat, k);
            self.recs@ = recs0.update(k, r);
        }
    }

    /// The payload of the next record; None where there is none, or it was not
    /// published yet. An empty payload counts as not published.
    pub fn begin_read(&mut self) -> (r: Option<Vec<u8>>)
        requires
            old(self).wf(),
        ensures
            final(self).wf(),
            final(self).size == old(self).size,
            final(self).data == old(self).data,
            final(self).recs == old(self).recs,
            ({
                let ready = old(self).recs@.len() > 0 && old(self).recs@[0].payload is Some
                    && old(self).recs@[0].len > 0;
                &&& r is Some <==> ready
                &&& r matches Some(v) ==> old(self).recs@[0].payload == Some(v@) && final(self).meta
                    == old(self).meta
                &&& r is None ==> final(self).meta == (RingMeta {
                    num_reads_nodata: vstd::wrapping::u64_specs::wrapping_add(
                        old(self).meta.num_reads_nodata,
                        1,
                    ),
                    ..old(self).meta
                })
            }),
    {
        let rd: u64 = self.meta.read_pos;
        let wr: u64 = self.meta.write_pos;
        let ghost recs = self.recs@;
        if next_record(rd, wr, self.size).is_none() {
            proof {
                if recs.len() > 0 {
                    lemma_chained(recs, rd as nat, wr as nat, 0);
                    lemma_rounded(recs[0].len + 8);
                }
            }
            self.meta.num_reads_nodata = self.meta.num_reads_nodata.wrapping_add(1);
            return None;
        }
        proof {
            assert(recs.len() > 0);
            lemma_chained(recs, rd as nat, wr as nat, 0);
            lemma_rounded(recs[0].len + 8);
            assert(holds_rec(self.data@, self.size as nat, recs[0]));
        }
        let n: u64 = self.get(rd) as u64 + self.get(rd + 1) as u64 * 0x100 + self.get(rd + 2) as u64
            * 0x1_0000 + self.get(rd + 3) as u64 * 0x100_0000;
        assert(n == header_at(self.data@, self.size as nat, rd as nat));
        if n == 0 {
            self.meta.num_reads_nodata = self.meta.num_reads_nodata.wrapping_add(1);
            return None;
        }
        let mut v: Vec<u8> = Vec::new();
        let ghost p = recs[0].payload->0;
        let mut j: u64 = 0;
        while j < n
            invariant
                j <= n,
                n == p.len(),
                rd + 8 + n <= wr,
                self.size > 0,
                self.data@.len() == self.size,
                v@ == p.take(j as int),
                forall|x: nat|
                    x < n ==> #[trigger] byte_at(
                        self.data@,
                        self.size as nat,
                        rd as nat + 8 + x,
                    ) == p[x as int],
            decreases n - j,
        {
            let b: u8 = self.get(rd + 8 + j);
            assert(byte_at(self.data@, self.size as nat, rd as nat + 8 + j as nat)
                == p[j as int]);
            v.push(b);
            j += 1;
            assert(v@ =~= p.take(j as int));
        }
        assert(p.take(j as int) =~= p);
        Some(v)
    }

    /// Go past the record that was read, whose payload had this length.
    pub fn end_read(&mut self, payload_len: usize)
        requires
            old(self).wf(),
            old(self).recs@.len() > 0,
            old(self).recs@[0].len == payload_len,
        ensures
            final(self).wf(),
            final(self).size == old(self).size,
            final(self).data == old(self).data,
            final(self).recs@ == old(self).recs@.drop_first(),
            final(self).meta == (RingMeta {
                read_pos: (old(self).meta.read_pos + record_bytes(payload_len as nat)) as u64,
                num_reads_succeeded: vstd::wrapping::u64_specs::wrapping_add(
                    old(self).meta.num_reads_succeeded,
                    1,
                ),
                ..old(self).meta
            }),
    {
        let ghost recs = self.recs@;
        proof {
            lemma_chained(recs, self.meta.read_pos as nat, self.meta.write_pos as nat, 0);
        }
        self.meta.read_pos = behind_record(self.meta.read_pos, payload_len as u32);
        self.meta.num_reads_succeeded = self.meta.num_reads_succeeded.wrapping_add(1);
        proof {
            self.recs@ = recs.drop_first();
            assert forall|i: int| 0 <= i < self.recs@.len() implies (#[trigger] self.recs@[i]).len
                <= u32::MAX && holds_rec(self.data@, self.size as nat, self.recs@[i]) by {
                assert(self.recs@[i] == recs[i + 1]);
            }
        }
    }
}

pub open spec fn fresh_meta() -> RingMeta {
    RingMeta {
        write_pos: 0,
        read_pos: 0,
        bytes_written: 0,
        num_writes_succeeded: 0,
        num_writes_overflow: 0,
        num_reads_succeeded: 0,
        num_reads_nodata: 0,
    }
}

/// The records once the one at `slot` was published.
pub open spec fn published(recs: Seq<Rec>, slot: nat, payload: Seq<u8>) -> Seq<Rec> {
    Seq::new(
        recs.len(),
        |i: int|
            if recs[i].pos == slot && recs[i].len == payload.len() {
                Rec { pos: recs[i].pos, len: recs[i].len, payload: Some(payload) }
            } else {
                recs[i]
            },
    )
}

proof fn lemma_published(recs: Seq<Rec>, from: nat, to: nat, k: int, payload: Seq<u8>)
    requires
        chained(recs, from, to),
        0 <= k < recs.len(),
        recs[k].len == payload.len(),
    ensures
        published(recs, recs[k].pos, payload) == recs.update(
            k,
            Rec { pos: recs[k].pos, len: recs[k].len, payload: Some(payload) },
        ),
{
    let a = published(recs, recs[k].pos, payload);
    let b = recs.update(k, Rec { pos: recs[k].pos, len: recs[k].len, payload: Some(payload) });
    assert forall|i: int| 0 <= i < recs.len() implies a[i] == b[i] by {
        if i < k {
            lemma_chained(recs, from, to, i);
            lemma_rounded(recs[i].len + 8);
        } else if i > k {
            lemma_chained(recs, from, to, k);
            lemma_rounded(recs[k].len + 8);
        }
    }
    assert(a =~= b);
}

/// A read gives back what a write wrote: once room was reserved and the payload
/// published, the ring holds what it held, and behind it that payload.
pub proof fn lemma_read_gives_back(recs: Seq<Rec>, rd: nat, wr: nat, payload: Seq<u8>)
    requires
        chained(recs, rd, wr),
    ensures
        ({
            let reserved = recs.push(Rec { pos: wr, len: payload.len(), payload: None });
            published(reserved, wr, payload) == recs.push(
                Rec { pos: wr, len: payload.len(), payload: Some(payload) },
            )
        }),
{
    let r = Rec { pos: wr, len: payload.len(), payload: None };
    lemma_chain_push(recs, rd, wr, r);
    lemma_published(recs.push(r), rd, wr + record_bytes(r.len), recs.len() as int, payload);
    assert(recs.push(r).update(
        recs.len() as int,
        Rec { pos: wr, len: payload.len(), payload: Some(payload) },
    ) =~= recs.push(Rec { pos: wr, len: payload.len(), payload: Some(payload) }));
}

/// Records are read in the order in which room was reserved for them: after `n`
/// reads, and however many reservations since, the next record is the one that
/// was reserved `n` places behind the first.
pub proof fn lemma_first_in_first_out(recs: Seq<Rec>, later: Seq<Rec>, n: int)
    requires
        0 <= n < recs.len(),
    ensures
        (recs + later).skip(n)[0] == recs[n],
        forall|m: int|
            0 <= m < recs.len() ==> (#[trigger] recs.skip(m)).drop_first() == recs.skip(m + 1),
{
    assert forall|m: int| 0 <= m < recs.len() implies (#[trigger] recs.skip(m)).drop_first()
        == recs.skip(m + 1) by {
        assert(recs.skip(m).drop_first() =~= recs.skip(m + 1));
    }
}

} // verus!
