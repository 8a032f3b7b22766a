//! The Mach time base: how ticks of the clock relate to nanoseconds.

use vstd::arithmetic::div_mod::*;
use vstd::prelude::*;

verus! {

/// A handle of a task or a thread.
pub type MachPort = u32;

pub const KERN_SUCCESS: i32 = 0;

/// A tick is `numer / denom` nanoseconds.
#[derive(Clone, Copy, PartialEq, Eq, Structural, Debug)]
pub struct TimebaseInfo {
    pub numer: u32,
    pub denom: u32,
}

impl TimebaseInfo {
    pub open spec fn wf(self) -> bool {
        self.numer > 0 && self.denom > 0
    }
}

/// The low 64 bits.
pub open spec fn low64(n: nat) -> u64 {
    (n % 0x1_0000_0000_0000_0000) as u64
}

/// `a * b / c`, rounded down, as 64 bits.
pub open spec fn scaled(a: u64, b: u32, c: u32) -> u64 {
    low64((a as nat * b as nat) / (c as nat))
}

fn scale(a: u64, b: u32, c: u32) -> (r: u64)
    requires
        c > 0,
    ensures
        r == scaled(a, b, c),
{
    proof {
        assert(a as nat * b as nat <= 0xffff_ffff_ffff_ffff * 0xffff_ffff) by (nonlinear_arith)
            requires
                a <= 0xffff_ffff_ffff_ffff,
                b <= 0xffff_ffff,
        ;
    }
    let p: u128 = a as u128 * b as u128;
    let q: u128 = p / c as u128;
    (q % 0x1_0000_0000_0000_0000) as u64
}

/// The ticks of so many nanoseconds.
pub fn ns_to_ticks(ns: u64, tb: TimebaseInfo) -> (r: u64)
    requires
        tb.wf(),
    ensures
        r == scaled(ns, tb.denom, tb.numer),
{
    scale(ns, tb.denom, tb.numer)
}

/// The nanoseconds of so many ticks.
pub fn ticks_to_ns(ticks: u64, tb: TimebaseInfo) -> (r: u64)
    requires
        tb.wf(),
    ensures
        r == scaled(ticks, tb.numer, tb.denom),
{
    scale(ticks, tb.numer, tb.denom)
}

/// The nanoseconds of a time stamp: the product wraps around.
pub open spec fn stamp(ticks: u64, tb: TimebaseInfo) -> u64 {
    vstd::wrapping::u64_specs::wrapping_mul(ticks, tb.numer as u64) / (tb.denom as u64)
}

pub fn stamp_ns(ticks: u64, tb: TimebaseInfo) -> (r: u64)
    requires
        tb.wf(),
    ensures
        r == stamp(ticks, tb),
{
    ticks.wrapping_mul(tb.numer as u64) / tb.denom as u64
}

/// Where a tick is a nanosecond, nothing changes.
pub proof fn lemma_same_unit(n: u64, tb: TimebaseInfo)
    requires
        tb.wf(),
        tb.numer == tb.denom,
    ensures
        scaled(n, tb.numer, tb.denom) == n,
        scaled(n, tb.denom, tb.numer) == n,
{
    lemma_div_multiples_vanish(n as int, tb.denom as int);
    assert(n as nat * tb.denom as nat == tb.denom as int * n as int) by (nonlinear_arith);
}

/// A time that is taken to ticks and back never gets longer, as long as the ticks
/// fit.
pub proof fn lemma_never_longer(ns: u64, tb: TimebaseInfo)
    requires
        tb.wf(),
        (ns as nat * tb.denom as nat) / (tb.numer as nat) <= u64::MAX,
    ensures
        scaled(scaled(ns, tb.denom, tb.numer), tb.numer, tb.denom) <= ns,
{
    let n = tb.numer as int;
    let d = tb.denom as int;
    let t = (ns as int * d) / n;
    lemma_fundamental_div_mod(ns as int * d, n);
    assert(t * n <= ns as int * d) by (nonlinear_arith)
        requires
            ns as int * d == n * t + (ns as int * d) % n,
            (ns as int * d) % n >= 0,
    ;
    lemma_div_is_ordered(t * n, ns as int * d, d);
    assert((ns as int * d) / d == ns) by {
        lemma_div_multiples_vanish(ns as int, d);
        assert(d * ns as int == ns as int * d) by (nonlinear_arith);
    }
    assert(t >= 0) by {
        assert(ns as int * d >= 0) by (nonlinear_arith)
            requires
                d > 0,
        ;
        lemma_div_pos_is_pos(ns as int * d, n);
    }
    assert(t * n >= 0) by (nonlinear_arith)
        requires
            t >= 0,
            n > 0,
    ;
    lemma_div_pos_is_pos(t * n, d);
    let u = scaled(ns, tb.denom, tb.numer);
    assert(u == t) by {
        assert((ns as nat * tb.denom as nat) / (tb.numer as nat) == t);
    }
    assert((u as nat * tb.numer as nat) / (tb.denom as nat) == (t * n) / d);
}

/// A time in the other unit is rounded down, by less than one: as long as it fits, as many
/// of the new unit as are told take no longer than the old time, and one more would.
pub proof fn lemma_rounded_down(a: u64, b: u32, c: u32)
    requires
        b > 0,
        c > 0,
        (a as nat * b as nat) / (c as nat) <= u64::MAX,
    ensures
        scaled(a, b, c) * c <= a * b,
        a * b < (scaled(a, b, c) + 1) * c,
{
    let p = a as int * b as int;
    let q = p / c as int;
    lemma_fundamental_div_mod(p, c as int);
    assert(q * c as int <= p && p < (q + 1) * c as int) by (nonlinear_arith)
        requires
            p == c as int * q + p % (c as int),
            0 <= p % (c as int) < c as int,
    ;
    assert(scaled(a, b, c) == q);
}

/// A time stamp is the same conversion, as long as the product fits.
pub proof fn lemma_stamp_is_scaled(ticks: u64, tb: TimebaseInfo)
    requires
        tb.wf(),
        ticks * tb.numer <= u64::MAX,
    ensures
        stamp(ticks, tb) == scaled(ticks, tb.numer, tb.denom),
        stamp(ticks, tb) * tb.denom <= ticks * tb.numer,
        ticks * tb.numer < (stamp(ticks, tb) + 1) * tb.denom,
{
    let p = ticks as nat * tb.numer as nat;
    lemma_div_is_ordered_by_denominator(p as int, 1, tb.denom as int);
    lemma_rounded_down(ticks, tb.numer, tb.denom);
}

} // verus!
