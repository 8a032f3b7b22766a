//! Address ranges as blocks of a longest-prefix-match trie.

use vstd::arithmetic::div_mod::*;
use vstd::arithmetic::power2::*;
use vstd::prelude::*;

verus! {

/// From 2^n on, the largest power of two that divides `base` and does not exceed
/// `span`, as its exponent.
pub open spec fn block_bits(base: nat, span: nat, n: nat) -> nat
    decreases span - n,
{
    if n < span && 2 * pow2(n) <= span && base % (2 * pow2(n)) == 0 {
        block_bits(base, span, n + 1)
    } else {
        n
    }
}

/// [`low`, `high`] in blocks: each is the largest aligned power of two that starts
/// where the last one ended and fits. A block is its base and the length of the
/// prefix that its addresses share.
pub open spec fn blocks(low: nat, high: nat) -> Seq<(u64, u32)>
    decreases high + 1 - low,
{
    if low > high {
        Seq::empty()
    } else {
        let n = block_bits(low, (high + 1 - low) as nat, 0);
        if 1 <= pow2(n) <= high + 1 - low {
            seq![(low as u64, (64 - n) as u32)] + blocks(low + pow2(n), high)
        } else {
            Seq::empty()
        }
    }
}

/// Whether `addr` has the prefix of a block.
pub open spec fn in_block(b: (u64, u32), addr: u64) -> bool {
    let size = pow2((64 - b.1) as nat);
    addr as nat / size == b.0 as nat / size
}

/// Whether a base and the length of a prefix are an aligned block.
pub open spec fn is_block(b: (u64, u32)) -> bool {
    b.1 <= 64 && b.0 as nat % pow2((64 - b.1) as nat) == 0
}

/// Whether `addr` is in a block of a list.
pub open spec fn covered(s: Seq<(u64, u32)>, addr: u64) -> bool {
    exists|i: int| 0 <= i < s.len() && in_block(#[trigger] s[i], addr)
}

/// Just behind a block.
spec fn end(b: (u64, u32)) -> nat {
    b.0 as nat + pow2((64 - b.1) as nat)
}

proof fn lemma_block_bits(base: nat, span: nat, n: nat)
    requires
        pow2(n) <= span,
        base % pow2(n) == 0,
    ensures
        pow2(block_bits(base, span, n)) <= span,
        base % pow2(block_bits(base, span, n)) == 0,
        n <= block_bits(base, span, n),
    decreases span - n,
{
    lemma_pow2_unfold(n + 1);
    if n < span && 2 * pow2(n) <= span && base % (2 * pow2(n)) == 0 {
        lemma_block_bits(base, span, n + 1);
    }
}

/// The exponent of a block of a span below 2^64 is at most 63.
proof fn lemma_bits_bound(n: nat, span: nat)
    requires
        pow2(n) <= span,
        span <= u64::MAX,
    ensures
        n <= 63,
{
    lemma2_to64();
    if n > 63 {
        if n > 64 {
            lemma_pow2_strictly_increases(64, n);
        }
        assert(pow2(64) == 0x1_0000_0000_0000_0000);
    }
}

/// An aligned block holds just the addresses from its base on, as many as its
/// size.
proof fn lemma_in_block(base: u64, n: nat, addr: u64)
    requires
        n <= 64,
        base as nat % pow2(n) == 0,
    ensures
        in_block((base, (64 - n) as u32), addr) <==> base <= addr < base + pow2(n),
{
    lemma_pow2_pos(n);
    let size = pow2(n) as int;
    let b = base as int;
    let a = addr as int;
    assert((64 - (64 - n) as u32) as nat == n);
    lemma_fundamental_div_mod(b, size);
    lemma_fundamental_div_mod(a, size);
    if b <= a < b + size {
        let q = b / size;
        assert(a == q * size + (a - b)) by (nonlinear_arith)
            requires
                b == size * q + 0,
        ;
        lemma_fundamental_div_mod_converse(a, size, q, a - b);
    }
    if a / size == b / size {
        assert(size * (a / size) == size * (b / size));
    }
}

/// The law of the decomposition: an address in [`low`, `high`] is in exactly one
/// block, and one outside is in none.
pub proof fn lemma_blocks_partition(low: u64, high: u64, addr: u64)
    requires
        !(low == 0 && high == u64::MAX),
    ensures
        low <= addr <= high ==> exists|i: int|
            0 <= i < blocks(low as nat, high as nat).len() && in_block(
                #[trigger] blocks(low as nat, high as nat)[i],
                addr,
            ),
        !(low <= addr <= high) ==> forall|i: int|
            0 <= i < blocks(low as nat, high as nat).len() ==> !in_block(
                #[trigger] blocks(low as nat, high as nat)[i],
                addr,
            ),
        forall|i: int, j: int|
            0 <= i < blocks(low as nat, high as nat).len() && 0 <= j < blocks(
                low as nat,
                high as nat,
            ).len() && in_block(#[trigger] blocks(low as nat, high as nat)[i], addr) && in_block(
                #[trigger] blocks(low as nat, high as nat)[j],
                addr,
            ) ==> i == j,
{
    lemma_partition_from(low as nat, high as nat, addr);
}

proof fn lemma_partition_from(low: nat, high: nat, addr: u64)
    requires
        high <= u64::MAX,
        low <= u64::MAX + 1,
        high + 1 - low <= u64::MAX,
    ensures
        low <= addr <= high ==> exists|i: int|
            0 <= i < blocks(low, high).len() && in_block(#[trigger] blocks(low, high)[i], addr),
        !(low <= addr <= high) ==> forall|i: int|
            0 <= i < blocks(low, high).len() ==> !in_block(#[trigger] blocks(low, high)[i], addr),
        forall|i: int, j: int|
            0 <= i < blocks(low, high).len() && 0 <= j < blocks(low, high).len() && in_block(
                #[trigger] blocks(low, high)[i],
                addr,
            ) && in_block(#[trigger] blocks(low, high)[j], addr) ==> i == j,
    decreases high + 1 - low,
{
    if low <= high {
        let span = (high + 1 - low) as nat;
        let n = block_bits(low, span, 0);
        lemma2_to64();
        lemma_block_bits(low, span, 0);
        lemma_bits_bound(n, span);
        lemma_pow2_pos(n);
        let b = (low as u64, (64 - n) as u32);
        let rest = blocks(low + pow2(n), high);
        let all = blocks(low, high);
        assert(all == seq![b] + rest);
        lemma_in_block(low as u64, n, addr);
        lemma_partition_from(low + pow2(n), high, addr);
        assert(all[0] == b);
        assert forall|i: int| 0 < i < all.len() implies #[trigger] all[i] == rest[i - 1] by {}
        if low <= addr <= high {
            if addr < low + pow2(n) {
                assert(in_block(all[0], addr));
            } else {
                let i = choose|i: int| 0 <= i < rest.len() && in_block(#[trigger] rest[i], addr);
                assert(in_block(all[i + 1], addr));
            }
        }
        assert forall|i: int, j: int|
            0 <= i < all.len() && 0 <= j < all.len() && in_block(#[trigger] all[i], addr)
                && in_block(#[trigger] all[j], addr) implies i == j by {
            if i > 0 && j > 0 {
                assert(in_block(rest[i - 1], addr) && in_block(rest[j - 1], addr));
            } else if i > 0 {
                assert(in_block(rest[i - 1], addr));
            } else if j > 0 {
                assert(in_block(rest[j - 1], addr));
            }
        }
        assert forall|i: int| 0 <= i < all.len() && !(low <= addr <= high) implies !in_block(
            #[trigger] all[i],
            addr,
        ) by {
            if i > 0 {
                assert(!in_block(rest[i - 1], addr));
            }
        }
    }
}

/// What 2^m divides, a smaller power of two divides.
proof fn lemma_smaller_divides(base: nat, k: nat, m: nat)
    requires
        k <= m,
        base % pow2(m) == 0,
    ensures
        base % pow2(k) == 0,
{
    let d = (m - k) as nat;
    lemma_pow2_pos(k);
    lemma_pow2_pos(m);
    lemma_pow2_adds(k, d);
    let q = base as int / pow2(m) as int;
    let small = pow2(k) as int;
    let more = pow2(d) as int;
    lemma_fundamental_div_mod(base as int, pow2(m) as int);
    assert(base == (more * q) * small) by (nonlinear_arith)
        requires
            base == (small * more) * q,
    ;
    lemma_mod_multiples_basic(more * q, small);
}

/// Of two multiples of `k`, the greater is greater by `k` at least.
proof fn lemma_multiples_apart(a: nat, b: nat, k: nat)
    requires
        k > 0,
        a % k == 0,
        b % k == 0,
        a < b,
    ensures
        a + k <= b,
{
    lemma_fundamental_div_mod(a as int, k as int);
    lemma_fundamental_div_mod(b as int, k as int);
    let p = a as int / k as int;
    let q = b as int / k as int;
    assert(a + k <= b) by (nonlinear_arith)
        requires
            a == k * p,
            b == k * q,
            a < b,
            k > 0,
    ;
}

/// No larger power of two divides `base` and fits.
proof fn lemma_block_bits_most(base: nat, span: nat, n: nat, m: nat)
    requires
        n <= m,
        pow2(m) <= span,
        base % pow2(m) == 0,
    ensures
        m <= block_bits(base, span, n),
    decreases m - n,
{
    if n < m {
        lemma_pow2_at_least(m);
        lemma_pow2_unfold(n + 1);
        lemma_smaller_divides(base, n + 1, m);
        if n + 1 < m {
            lemma_pow2_strictly_increases(n + 1, m);
        }
        lemma_block_bits_most(base, span, n + 1, m);
    } else {
        lemma_block_bits(base, span, n);
    }
}

/// A block inside [`low`, `high`] that starts in the largest block from `low` on ends
/// in it.
proof fn lemma_ends_inside(low: nat, high: nat, b: (u64, u32))
    requires
        low <= high,
        is_block(b),
        low <= b.0,
        end(b) <= high + 1,
        b.0 < low + pow2(block_bits(low, (high + 1 - low) as nat, 0)),
    ensures
        end(b) <= low + pow2(block_bits(low, (high + 1 - low) as nat, 0)),
{
    let span = (high + 1 - low) as nat;
    let n = block_bits(low, span, 0);
    let m = (64 - b.1) as nat;
    let base = b.0 as nat;
    lemma2_to64();
    lemma_block_bits(low, span, 0);
    lemma_pow2_pos(n);
    lemma_pow2_pos(m);
    if m <= n {
        lemma_smaller_divides(low, m, n);
        lemma_mod_self_0(pow2(n) as int);
        lemma_smaller_divides(pow2(n), m, n);
        lemma_add_mod_noop(low as int, pow2(n) as int, pow2(m) as int);
        lemma_small_mod(0, pow2(m));
        lemma_multiples_apart(base, low + pow2(n), pow2(m));
    } else {
        lemma_smaller_divides(base, n, m);
        if low < base {
            lemma_multiples_apart(low, base, pow2(n));
        }
        lemma_block_bits_most(low, span, 0, m);
    }
}

/// The blocks `which` of a list, all of them inside [`low`, `high`], hold each of its
/// addresses.
spec fn cover(s: Seq<(u64, u32)>, which: Set<int>, low: nat, high: nat) -> bool {
    &&& which.finite()
    &&& forall|i: int| #[trigger]
        which.contains(i) ==> 0 <= i < s.len() && is_block(s[i]) && low <= s[i].0 && end(s[i])
            <= high + 1
    &&& forall|addr: nat| low <= addr <= high ==> #[trigger] held(s, which, addr)
}

spec fn held(s: Seq<(u64, u32)>, which: Set<int>, addr: nat) -> bool {
    exists|i: int| #[trigger] which.contains(i) && s[i].0 <= addr < end(s[i])
}

proof fn lemma_shortest_from(low: nat, high: nat, s: Seq<(u64, u32)>, which: Set<int>)
    requires
        high <= u64::MAX,
        high + 1 - low <= u64::MAX,
        cover(s, which, low, high),
    ensures
        which.len() >= blocks(low, high).len(),
    decreases high + 1 - low,
{
    if low <= high {
        let span = (high + 1 - low) as nat;
        let n = block_bits(low, span, 0);
        let mid = low + pow2(n);
        lemma2_to64();
        lemma_block_bits(low, span, 0);
        lemma_pow2_pos(n);
        assert(held(s, which, low));
        let first = choose|i: int| #[trigger] which.contains(i) && s[i].0 <= low < end(s[i]);
        let others = which.filter(|i: int| s[i].0 >= mid);
        assert(others.subset_of(which.remove(first)));
        vstd::set_lib::lemma_len_subset(others, which.remove(first));
        assert forall|addr: nat| mid <= addr <= high implies #[trigger] held(s, others, addr) by {
            assert(held(s, which, addr));
            let i = choose|i: int| #[trigger] which.contains(i) && s[i].0 <= addr < end(s[i]);
            if s[i].0 < mid {
                lemma_ends_inside(low, high, s[i]);
            }
            assert(others.contains(i));
        }
        lemma_shortest_from(mid, high, s, others);
        assert(blocks(low, high).len() == 1 + blocks(mid, high).len());
    }
}

/// A block ends where the address space does, or before.
proof fn lemma_end(b: (u64, u32))
    requires
        is_block(b),
    ensures
        end(b) <= u64::MAX + 1,
{
    let m = (64 - b.1) as nat;
    lemma2_to64();
    lemma_pow2_pos(m);
    lemma_mod_self_0(pow2(64) as int);
    lemma_smaller_divides(pow2(64), m, 64);
    lemma_multiples_apart(b.0 as nat, pow2(64), pow2(m));
}

/// The decomposition is a shortest one: any list of aligned blocks that holds just
/// the addresses of [`low`, `high`] has as many entries at least.
pub proof fn lemma_blocks_shortest(low: u64, high: u64, s: Seq<(u64, u32)>)
    requires
        !(low == 0 && high == u64::MAX),
        forall|i: int| 0 <= i < s.len() ==> is_block(#[trigger] s[i]),
        forall|addr: u64| #[trigger] covered(s, addr) <==> low <= addr <= high,
    ensures
        s.len() >= blocks(low as nat, high as nat).len(),
{
    let which = vstd::set_lib::set_int_range(0, s.len() as int);
    vstd::set_lib::lemma_int_range(0, s.len() as int);
    assert forall|i: int| #[trigger] which.contains(i) implies low <= s[i].0 && end(s[i])
        <= high + 1 by {
        let b = s[i];
        let m = (64 - b.1) as nat;
        lemma_pow2_pos(m);
        lemma_end(b);
        let last = (end(b) - 1) as u64;
        lemma_in_block(b.0, m, b.0);
        lemma_in_block(b.0, m, last);
        assert(covered(s, b.0));
        assert(covered(s, last));
    }
    assert forall|addr: nat| low <= addr <= high implies #[trigger] held(s, which, addr) by {
        assert(covered(s, addr as u64));
        let i = choose|i: int| 0 <= i < s.len() && in_block(#[trigger] s[i], addr as u64);
        lemma_in_block(s[i].0, (64 - s[i].1) as nat, addr as u64);
        assert(which.contains(i));
    }
    lemma_shortest_from(low as nat, high as nat, s, which);
}

/// The blocks are aligned, and a prefix is at most as long as an address.
pub proof fn lemma_prefixes(low: nat, high: nat)
    requires
        high <= u64::MAX,
        high + 1 - low <= u64::MAX,
    ensures
        forall|i: int|
            0 <= i < blocks(low, high).len() ==> 1 <= (#[trigger] blocks(low, high)[i]).1 <= 64
                && is_block(blocks(low, high)[i]),
    decreases high + 1 - low,
{
    if low <= high {
        let span = (high + 1 - low) as nat;
        let n = block_bits(low, span, 0);
        lemma2_to64();
        lemma_block_bits(low, span, 0);
        lemma_bits_bound(n, span);
        lemma_pow2_pos(n);
        lemma_prefixes(low + pow2(n), high);
        let rest = blocks(low + pow2(n), high);
        assert forall|i: int| 0 <= i < blocks(low, high).len() implies 1 <= (#[trigger] blocks(
            low,
            high,
        )[i]).1 <= 64 && is_block(blocks(low, high)[i]) by {
            if i > 0 {
                assert(blocks(low, high)[i] == rest[i - 1]);
            }
        }
    }
}

/// [`low`, `high`] in power-of-two aligned blocks, so that a lookup of any address
/// of the range finds one entry. The whole address space is no range.
pub fn summarize_address_range(low: u64, high: u64) -> (r: Vec<(u64, u32)>)
    requires
        !(low == 0 && high == u64::MAX),
    ensures
        r@ == blocks(low as nat, high as nat),
{
    let mut r: Vec<(u64, u32)> = Vec::new();
    if low > high {
        return r;
    }
    let mut curr: u64 = low;
    assert(r@ + blocks(low as nat, high as nat) =~= blocks(low as nat, high as nat));
    loop
        invariant
            low <= curr <= high,
            !(low == 0 && high == u64::MAX),
            r@ + blocks(curr as nat, high as nat) == blocks(low as nat, high as nat),
        decreases high - curr,
    {
        let span: u64 = high - curr + 1;
        let ghost n0 = block_bits(curr as nat, span as nat, 0);
        let mut bits: u32 = 0;
        let mut size: u64 = 1;
        proof {
            lemma2_to64();
            lemma_block_bits(curr as nat, span as nat, 0);
            lemma_bits_bound(n0, span as nat);
        }
        while size <= span / 2 && curr % (size * 2) == 0
            invariant
                1 <= size <= span,
                size == pow2(bits as nat),
                bits <= 63,
                n0 == block_bits(curr as nat, span as nat, bits as nat),
                curr as nat % pow2(bits as nat) == 0,
            decreases span - size,
        {
            proof {
                lemma_pow2_unfold((bits + 1) as nat);
                assert(2 * pow2(bits as nat) == size * 2);
                lemma_pow2_at_least(bits as nat);
            }
            size = size * 2;
            bits = bits + 1;
            proof {
                lemma_bits_bound(bits as nat, span as nat);
            }
        }
        proof {
            assert(2 * pow2(bits as nat) == size * 2);
            assert(n0 == bits);
            lemma_pow2_pos(bits as nat);
        }
        let ghost before = r@;
        r.push((curr, 64 - bits));
        proof {
            let rest = blocks((curr + size) as nat, high as nat);
            assert(blocks(curr as nat, high as nat) == seq![(curr, (64 - bits) as u32)] + rest);
            assert(r@ + rest =~= before + blocks(curr as nat, high as nat));
        }
        if size > high - curr {
            proof {
                assert(curr + size == high + 1);
                assert(blocks((curr + size) as nat, high as nat) =~= Seq::empty());
                assert(r@ + Seq::<(u64, u32)>::empty() =~= r@);
            }
            return r;
        }
        curr = curr + size;
    }
}

/// 2^n is greater than n.
proof fn lemma_pow2_at_least(n: nat)
    ensures
        pow2(n) > n,
    decreases n,
{
    lemma2_to64();
    if n > 0 {
        lemma_pow2_at_least((n - 1) as nat);
        lemma_pow2_unfold(n);
    }
}

} // verus!
