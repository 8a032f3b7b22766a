//! The bookkeeping of sampled allocations: each is tracked by address until its
//! free arrives, and counted at its allocation site, which is its whole callstack.
//!
//! Frees are batched by the target, so they arrive late: alloc(A,1) free(A,2)
//! alloc(A,3) free(A,4) can arrive as alloc(1) alloc(3) free(2) free(4). The
//! sequence numbers tell them apart: a free takes the newest allocation of its
//! address that is older than it.

use crate::assoc;
use crate::intern::same_numbers;
use std::collections::HashMap;
use vstd::prelude::*;
use vstd::slice::slice_to_vec;

verus! {

/// What a site allocated and freed.
#[derive(Clone, Copy, PartialEq, Eq, Structural, Debug)]
pub struct SiteStats {
    pub allocated: u64,
    pub freed: u64,
    pub alloc_count: u64,
    pub free_count: u64,
}

/// A sampled allocation that was not freed yet.
pub struct LiveAlloc {
    pub seq: u64,
    pub sample_size: u64,
    pub pcs: Vec<u64>,
}

/// A live allocation, as plain values.
pub struct LiveView {
    pub seq: u64,
    pub sample_size: u64,
    pub pcs: Seq<u64>,
}

impl View for LiveAlloc {
    type V = LiveView;

    open spec fn view(&self) -> LiveView {
        LiveView { seq: self.seq, sample_size: self.sample_size, pcs: self.pcs@ }
    }
}

pub open spec fn live_views(s: Seq<LiveAlloc>) -> Seq<LiveView> {
    Seq::new(s.len(), |i: int| s[i]@)
}

/// The book, as plain values: the sites by callstack, and the live allocations of
/// each address in the order they arrived.
#[verifier::ext_equal]
pub struct BookView {
    pub sites: Map<Seq<u64>, SiteStats>,
    pub live: Map<u64, Seq<LiveView>>,
}

pub struct HeapBook {
    pub sites: Vec<(Vec<u64>, SiteStats)>,
    pub live: HashMap<u64, Vec<LiveAlloc>>,
}

pub open spec fn site_pairs(s: Seq<(Vec<u64>, SiteStats)>) -> Seq<(Seq<u64>, SiteStats)> {
    Seq::new(s.len(), |i: int| (s[i].0@, s[i].1))
}

impl View for HeapBook {
    type V = BookView;

    open spec fn view(&self) -> BookView {
        BookView {
            sites: assoc::as_map(site_pairs(self.sites@)),
            live: self.live@.map_values(|v: Vec<LiveAlloc>| live_views(v@)),
        }
    }
}

pub open spec fn no_stats() -> SiteStats {
    SiteStats { allocated: 0, freed: 0, alloc_count: 0, free_count: 0 }
}

/// What a site has counted so far.
pub open spec fn stats_of(sites: Map<Seq<u64>, SiteStats>, pcs: Seq<u64>) -> SiteStats {
    if sites.dom().contains(pcs) {
        sites[pcs]
    } else {
        no_stats()
    }
}

/// The live allocations of an address.
pub open spec fn live_at(live: Map<u64, Seq<LiveView>>, addr: u64) -> Seq<LiveView> {
    if live.dom().contains(addr) {
        live[addr]
    } else {
        Seq::empty()
    }
}

/// The book after an allocation.
pub open spec fn after_alloc(b: BookView, addr: u64, l: LiveView) -> BookView {
    let s = stats_of(b.sites, l.pcs);
    BookView {
        sites: b.sites.insert(
            l.pcs,
            SiteStats {
                allocated: (s.allocated + l.sample_size) as u64,
                alloc_count: (s.alloc_count + 1) as u64,
                ..s
            },
        ),
        live: b.live.insert(addr, live_at(b.live, addr).push(l)),
    }
}

/// The last allocation of a list that is older than `seq`.
pub open spec fn older(list: Seq<LiveView>, seq: u64) -> Option<nat>
    decreases list.len(),
{
    if list.len() == 0 {
        None
    } else if list.last().seq < seq {
        Some((list.len() - 1) as nat)
    } else {
        older(list.drop_last(), seq)
    }
}

/// The live allocations with the `i`th of an address taken out.
pub open spec fn taken_out(live: Map<u64, Seq<LiveView>>, addr: u64, i: int) -> Map<
    u64,
    Seq<LiveView>,
> {
    let rest = live[addr].remove(i);
    if rest.len() == 0 {
        live.remove(addr)
    } else {
        live.insert(addr, rest)
    }
}

/// The book after a free: the allocation that it takes moves its bytes to freed;
/// a free that takes none is of an allocation that was not sampled, or stale.
pub open spec fn after_free(b: BookView, seq: u64, addr: u64) -> BookView {
    match older(live_at(b.live, addr), seq) {
        None => b,
        Some(i) => {
            let l = b.live[addr][i as int];
            let s = stats_of(b.sites, l.pcs);
            BookView {
                sites: b.sites.insert(
                    l.pcs,
                    SiteStats {
                        freed: (s.freed + l.sample_size) as u64,
                        free_count: (s.free_count + 1) as u64,
                        ..s
                    },
                ),
                live: taken_out(b.live, addr, i as int),
            }
        },
    }
}

/// What one live allocation counts for at a site: itself, or its bytes.
pub open spec fn weight(l: LiveView, pcs: Seq<u64>, count: bool) -> nat {
    if l.pcs == pcs {
        if count {
            1
        } else {
            l.sample_size as nat
        }
    } else {
        0
    }
}

pub open spec fn list_sum(list: Seq<LiveView>, pcs: Seq<u64>, count: bool) -> nat
    decreases list.len(),
{
    if list.len() == 0 {
        0
    } else {
        list_sum(list.drop_last(), pcs, count) + weight(list.last(), pcs, count)
    }
}

/// What is live at a site: how many allocations, or how many bytes.
pub open spec fn live_sum(live: Map<u64, Seq<LiveView>>, pcs: Seq<u64>, count: bool) -> nat
    decreases live.dom().len(),
    when live.dom().finite()
{
    if live.dom().len() == 0 {
        0
    } else {
        let k = live.dom().choose();
        list_sum(live[k], pcs, count) + live_sum(live.remove(k), pcs, count)
    }
}

/// The books balance: what a site allocated is what it freed and what is live at
/// it, in bytes and in allocations. No address is kept without live allocations,
/// and every live allocation has a site.
pub open spec fn balanced(b: BookView) -> bool {
    &&& b.live.dom().finite()
    &&& forall|a: u64| #[trigger] b.live.dom().contains(a) ==> b.live[a].len() > 0
    &&& forall|a: u64, i: int|
        b.live.dom().contains(a) && 0 <= i < b.live[a].len() ==> b.sites.dom().contains(
            (#[trigger] b.live[a][i]).pcs,
        )
    &&& forall|p: Seq<u64>| #[trigger]
        b.sites.dom().contains(p) ==> {
            &&& b.sites[p].allocated == b.sites[p].freed + live_sum(b.live, p, false)
            &&& b.sites[p].alloc_count == b.sites[p].free_count + live_sum(b.live, p, true)
        }
}

proof fn lemma_list_push(list: Seq<LiveView>, l: LiveView, pcs: Seq<u64>, count: bool)
    ensures
        list_sum(list.push(l), pcs, count) == list_sum(list, pcs, count) + weight(l, pcs, count),
{
    assert(list.push(l).drop_last() =~= list);
}

proof fn lemma_list_remove(list: Seq<LiveView>, i: int, pcs: Seq<u64>, count: bool)
    requires
        0 <= i < list.len(),
    ensures
        list_sum(list, pcs, count) == list_sum(list.remove(i), pcs, count) + weight(
            list[i],
            pcs,
            count,
        ),
    decreases list.len(),
{
    if i == list.len() - 1 {
        assert(list.remove(i) =~= list.drop_last());
    } else {
        lemma_list_remove(list.drop_last(), i, pcs, count);
        assert(list.remove(i).drop_last() =~= list.drop_last().remove(i));
        assert(list.remove(i).last() == list.last());
    }
}

proof fn lemma_live_sum_key(live: Map<u64, Seq<LiveView>>, k: u64, pcs: Seq<u64>, count: bool)
    requires
        live.dom().finite(),
        live.dom().contains(k),
    ensures
        live_sum(live, pcs, count) == list_sum(live[k], pcs, count) + live_sum(
            live.remove(k),
            pcs,
            count,
        ),
    decreases live.dom().len(),
{
    let c = live.dom().choose();
    assert(live.dom().contains(c));
    assert(live.remove(c).dom() =~= live.dom().remove(c));
    assert(live.remove(k).dom() =~= live.dom().remove(k));
    if c != k {
        lemma_live_sum_key(live.remove(c), k, pcs, count);
        lemma_live_sum_key(live.remove(k), c, pcs, count);
        assert(live.remove(c).remove(k) =~= live.remove(k).remove(c));
    }
}

/// What is live once an address has other live allocations.
proof fn lemma_live_sum_insert(
    live: Map<u64, Seq<LiveView>>,
    k: u64,
    list: Seq<LiveView>,
    pcs: Seq<u64>,
    count: bool,
)
    requires
        live.dom().finite(),
    ensures
        live_sum(live.insert(k, list), pcs, count) + list_sum(live_at(live, k), pcs, count)
            == live_sum(live, pcs, count) + list_sum(list, pcs, count),
{
    let m = live.insert(k, list);
    assert(m.dom() =~= live.dom().insert(k));
    lemma_live_sum_key(m, k, pcs, count);
    assert(m.remove(k) =~= live.remove(k));
    if live.dom().contains(k) {
        lemma_live_sum_key(live, k, pcs, count);
    } else {
        assert(live.remove(k) =~= live);
    }
}

pub proof fn lemma_older(list: Seq<LiveView>, seq: u64)
    ensures
        match older(list, seq) {
            Some(i) => i < list.len() && list[i as int].seq < seq && forall|j: int|
                i < j < list.len() ==> (#[trigger] list[j]).seq >= seq,
            None => forall|j: int| 0 <= j < list.len() ==> (#[trigger] list[j]).seq >= seq,
        },
    decreases list.len(),
{
    if list.len() > 0 && list.last().seq >= seq {
        lemma_older(list.drop_last(), seq);
        assert forall|j: int| 0 <= j < list.len() - 1 implies (#[trigger] list[j])
            == list.drop_last()[j] by {}
    }
}

/// Where the allocations of an address are in the order of their numbers, a free
/// takes the newest that is older than it.
pub proof fn lemma_free_takes_newest_older(list: Seq<LiveView>, seq: u64, j: int)
    requires
        forall|a: int, b: int|
            0 <= a <= b < list.len() ==> (#[trigger] list[a]).seq <= (#[trigger] list[b]).seq,
        0 <= j < list.len(),
        list[j].seq < seq,
    ensures
        older(list, seq) matches Some(i) && list[i as int].seq < seq && list[j].seq
            <= list[i as int].seq,
{
    lemma_older(list, seq);
}

/// An allocation keeps the books balanced.
pub proof fn lemma_alloc_balanced(b: BookView, addr: u64, l: LiveView)
    requires
        balanced(b),
        stats_of(b.sites, l.pcs).allocated + l.sample_size <= u64::MAX,
        stats_of(b.sites, l.pcs).alloc_count < u64::MAX,
    ensures
        balanced(after_alloc(b, addr, l)),
{
    let n = after_alloc(b, addr, l);
    let list = live_at(b.live, addr);
    assert(n.live.dom() =~= b.live.dom().insert(addr));
    assert forall|a: u64, i: int|
        n.live.dom().contains(a) && 0 <= i < n.live[a].len() implies n.sites.dom().contains(
        (#[trigger] n.live[a][i]).pcs,
    ) by {
        if a == addr && i < list.len() {
            assert(n.live[a][i] == list[i]);
            assert(b.live[a][i] == list[i]);
        } else if a != addr {
            assert(b.live[a][i] == n.live[a][i]);
        }
    }
    assert forall|p: Seq<u64>| #[trigger] n.sites.dom().contains(p) implies {
        &&& n.sites[p].allocated == n.sites[p].freed + live_sum(n.live, p, false)
        &&& n.sites[p].alloc_count == n.sites[p].free_count + live_sum(n.live, p, true)
    } by {
        lemma_live_sum_insert(b.live, addr, list.push(l), p, false);
        lemma_live_sum_insert(b.live, addr, list.push(l), p, true);
        lemma_list_push(list, l, p, false);
        lemma_list_push(list, l, p, true);
        if !b.sites.dom().contains(p) {
            lemma_nothing_live(b, p, false);
            lemma_nothing_live(b, p, true);
        }
    }
}

/// Nothing is live at a callstack that is no site.
proof fn lemma_nothing_live(b: BookView, p: Seq<u64>, count: bool)
    requires
        balanced(b),
        !b.sites.dom().contains(p),
    ensures
        live_sum(b.live, p, count) == 0,
{
    assert forall|a: u64, i: int|
        b.live.dom().contains(a) && 0 <= i < b.live[a].len() implies (#[trigger] b.live[a][i]).pcs
        != p by {}
    lemma_none_live(b.live, p, count);
}

proof fn lemma_none_live(live: Map<u64, Seq<LiveView>>, p: Seq<u64>, count: bool)
    requires
        live.dom().finite(),
        forall|a: u64, i: int|
            live.dom().contains(a) && 0 <= i < live[a].len() ==> (#[trigger] live[a][i]).pcs != p,
    ensures
        live_sum(live, p, count) == 0,
    decreases live.dom().len(),
{
    if live.dom().len() > 0 {
        let k = live.dom().choose();
        assert(live.dom().contains(k));
        assert(live.remove(k).dom() =~= live.dom().remove(k));
        assert forall|a: u64, i: int|
            live.remove(k).dom().contains(a) && 0 <= i < live.remove(k)[a].len() implies (
        #[trigger] live.remove(k)[a][i]).pcs != p by {
            assert(live[a][i] == live.remove(k)[a][i]);
        }
        lemma_none_live(live.remove(k), p, count);
        assert forall|i: int| 0 <= i < live[k].len() implies (#[trigger] live[k][i]).pcs != p by {}
        lemma_none_in_list(live[k], p, count);
    }
}

proof fn lemma_none_in_list(list: Seq<LiveView>, p: Seq<u64>, count: bool)
    requires
        forall|i: int| 0 <= i < list.len() ==> (#[trigger] list[i]).pcs != p,
    ensures
        list_sum(list, p, count) == 0,
    decreases list.len(),
{
    if list.len() > 0 {
        assert(list[list.len() - 1].pcs != p);
        assert forall|i: int| 0 <= i < list.drop_last().len() implies (#[trigger] list.drop_last()[i]).pcs
            != p by {
            assert(list[i].pcs != p);
        }
        lemma_none_in_list(list.drop_last(), p, count);
    }
}

/// What a free takes is live at its site.
proof fn lemma_taken_is_live(b: BookView, addr: u64, i: int)
    requires
        balanced(b),
        b.live.dom().contains(addr),
        0 <= i < b.live[addr].len(),
    ensures
        ({
            let l = b.live[addr][i];
            &&& b.sites.dom().contains(l.pcs)
            &&& l.sample_size <= live_sum(b.live, l.pcs, false)
            &&& 1 <= live_sum(b.live, l.pcs, true)
        }),
{
    let l = b.live[addr][i];
    lemma_live_sum_key(b.live, addr, l.pcs, false);
    lemma_live_sum_key(b.live, addr, l.pcs, true);
    lemma_list_remove(b.live[addr], i, l.pcs, false);
    lemma_list_remove(b.live[addr], i, l.pcs, true);
}

/// A free keeps the books balanced.
pub proof fn lemma_free_balanced(b: BookView, seq: u64, addr: u64)
    requires
        balanced(b),
    ensures
        balanced(after_free(b, seq, addr)),
{
    lemma_older(live_at(b.live, addr), seq);
    if let Some(k) = older(live_at(b.live, addr), seq) {
        let i = k as int;
        let n = after_free(b, seq, addr);
        let list = b.live[addr];
        let l = list[i];
        let rest = list.remove(i);
        lemma_taken_is_live(b, addr, i);
        assert(b.sites.dom().contains(l.pcs));
        if rest.len() == 0 {
            assert(n.live.dom() =~= b.live.dom().remove(addr));
        } else {
            assert(n.live.dom() =~= b.live.dom().insert(addr));
        }
        assert forall|a: u64, j: int|
            n.live.dom().contains(a) && 0 <= j < n.live[a].len() implies n.sites.dom().contains(
            (#[trigger] n.live[a][j]).pcs,
        ) by {
            if a == addr {
                if j < i {
                    assert(rest[j] == list[j]);
                    assert(b.live[a][j] == list[j]);
                } else {
                    assert(rest[j] == list[j + 1]);
                    assert(b.live[a][j + 1] == list[j + 1]);
                }
            } else {
                assert(b.live[a][j] == n.live[a][j]);
            }
        }
        assert forall|p: Seq<u64>| #[trigger] n.sites.dom().contains(p) implies {
            &&& n.sites[p].allocated == n.sites[p].freed + live_sum(n.live, p, false)
            &&& n.sites[p].alloc_count == n.sites[p].free_count + live_sum(n.live, p, true)
        } by {
            assert(b.sites.dom().contains(p));
            lemma_taken_sum(b.live, addr, i, p, false);
            lemma_taken_sum(b.live, addr, i, p, true);
        }
    }
}

proof fn lemma_taken_sum(live: Map<u64, Seq<LiveView>>, addr: u64, i: int, p: Seq<u64>, count: bool)
    requires
        live.dom().finite(),
        live.dom().contains(addr),
        0 <= i < live[addr].len(),
    ensures
        live_sum(live, p, count) == live_sum(taken_out(live, addr, i), p, count) + weight(
            live[addr][i],
            p,
            count,
        ),
{
    let rest = live[addr].remove(i);
    lemma_list_remove(live[addr], i, p, count);
    lemma_live_sum_key(live, addr, p, count);
    if rest.len() > 0 {
        lemma_live_sum_insert(live, addr, rest, p, count);
    }
}

impl HeapBook {
    pub open spec fn wf(self) -> bool {
        assoc::distinct_keys(site_pairs(self.sites@)) && balanced(self@)
    }

    /// Whether a site can count one more allocation of `size` bytes.
    pub open spec fn room_for(self, pcs: Seq<u64>, size: u64) -> bool {
        &&& stats_of(self@.sites, pcs).allocated + size <= u64::MAX
        &&& stats_of(self@.sites, pcs).alloc_count < u64::MAX
    }

    pub fn new() -> (r: Self)
        ensures
            r.wf(),
            r@ == (BookView { sites: Map::empty(), live: Map::empty() }),
    {
        let r = HeapBook { sites: Vec::new(), live: HashMap::new() };
        proof {
            assoc::lemma_empty(site_pairs(r.sites@));
            assert(r@.live =~= Map::empty());
        }
        r
    }

    /// Where the site of a callstack stands.
    fn find_site(&self, pcs: &[u64]) -> (r: Option<usize>)
        requires
            assoc::distinct_keys(site_pairs(self.sites@)),
        ensures
            match r {
                Some(i) => {
                    &&& i < self.sites@.len()
                    &&& self.sites@[i as int].0@ == pcs@
                    &&& self@.sites.dom().contains(pcs@)
                    &&& self@.sites[pcs@] == self.sites@[i as int].1
                },
                None => !self@.sites.dom().contains(pcs@) && !assoc::has_key(
                    site_pairs(self.sites@),
                    pcs@,
                ),
            },
    {
        let ghost pairs = site_pairs(self.sites@);
        let mut i: usize = 0;
        while i < self.sites.len()
            invariant
                i <= self.sites@.len(),
                pairs == site_pairs(self.sites@),
                assoc::distinct_keys(pairs),
                forall|j: int| 0 <= j < i ==> (#[trigger] pairs[j]).0 != pcs@,
            decreases self.sites@.len() - i,
        {
            if same_numbers(self.sites[i].0.as_slice(), pcs) {
                proof {
                    assoc::lemma_entry(pairs, i as int);
                }
                return Some(i);
            }
            assert(pairs[i as int].0 != pcs@);
            i += 1;
        }
        None
    }

    /// What a site has counted; None where it has counted nothing.
    pub fn site(&self, pcs: &[u64]) -> (r: Option<SiteStats>)
        requires
            self.wf(),
        ensures
            r == (if self@.sites.dom().contains(pcs@) {
                Some(self@.sites[pcs@])
            } else {
                None
            }),
    {
        match self.find_site(pcs) {
            Some(i) => Some(self.sites[i].1),
            None => None,
        }
    }

    /// How many sites there are.
    pub fn site_count(&self) -> (n: usize)
        requires
            self.wf(),
        ensures
            n == self@.sites.dom().len(),
    {
        proof {
            assoc::lemma_len(site_pairs(self.sites@));
        }
        self.sites.len()
    }

    /// How many allocations of an address are live.
    pub fn live_count(&self, addr: u64) -> (n: usize)
        ensures
            n == live_at(self@.live, addr).len(),
    {
        match self.live.get(&addr) {
            Some(list) => {
                assert(self@.live[addr] == live_views(list@));
                list.len()
            },
            None => 0,
        }
    }

    /// Whether a site can count one more allocation of `size` bytes.
    pub fn has_room(&self, pcs: &[u64], size: u64) -> (r: bool)
        requires
            self.wf(),
        ensures
            r == self.room_for(pcs@, size),
    {
        match self.find_site(pcs) {
            Some(i) => {
                let s = self.sites[i].1;
                size <= u64::MAX - s.allocated && s.alloc_count < u64::MAX
            },
            None => true,
        }
    }

    /// Put the stats of a site.
    fn put_site(&mut self, pcs: &[u64], stats: SiteStats)
        requires
            assoc::distinct_keys(site_pairs(old(self).sites@)),
        ensures
            assoc::distinct_keys(site_pairs(final(self).sites@)),
            final(self)@.sites == old(self)@.sites.insert(pcs@, stats),
            final(self).live == old(self).live,
    {
        let ghost pairs = site_pairs(self.sites@);
        match self.find_site(pcs) {
            Some(i) => {
                let key = slice_to_vec(pcs);
                self.sites.set(i, (key, stats));
                proof {
                    assoc::lemma_update(pairs, i as int, stats);
                    assert(site_pairs(self.sites@) =~= pairs.update(i as int, (pcs@, stats)));
                }
            },
            None => {
                let key = slice_to_vec(pcs);
                self.sites.push((key, stats));
                proof {
                    assoc::lemma_push(pairs, pcs@, stats);
                    assert(site_pairs(self.sites@) =~= pairs.push((pcs@, stats)));
                }
            },
        }
    }

    /// Count a sampled allocation.
    pub fn apply_alloc(&mut self, seq: u64, addr: u64, sample_size: u64, pcs: Vec<u64>)
        requires
            old(self).wf(),
            old(self).room_for(pcs@, sample_size),
        ensures
            final(self).wf(),
            final(self)@ == after_alloc(old(self)@, addr, LiveView { seq, sample_size, pcs: pcs@ }),
    {
        let ghost b = self@;
        let ghost l = LiveView { seq, sample_size, pcs: pcs@ };
        let mut s = match self.find_site(pcs.as_slice()) {
            Some(i) => self.sites[i].1,
            None => SiteStats { allocated: 0, freed: 0, alloc_count: 0, free_count: 0 },
        };
        s.allocated = s.allocated + sample_size;
        s.alloc_count = s.alloc_count + 1;
        self.put_site(pcs.as_slice(), s);
        let mut list: Vec<LiveAlloc> = match self.live.remove(&addr) {
            Some(v) => v,
            None => Vec::new(),
        };
        assert(live_views(list@) =~= live_at(b.live, addr));
        let ghost before = live_views(list@);
        list.push(LiveAlloc { seq, sample_size, pcs });
        assert(live_views(list@) =~= before.push(l));
        self.live.insert(addr, list);
        proof {
            assert(self@.live =~= b.live.insert(addr, live_at(b.live, addr).push(l)));
            assert(self@ =~= after_alloc(b, addr, l));
            lemma_alloc_balanced(b, addr, l);
        }
    }

    /// Count a free.
    pub fn apply_free(&mut self, seq: u64, addr: u64)
        requires
            old(self).wf(),
        ensures
            final(self).wf(),
            final(self)@ == after_free(old(self)@, seq, addr),
    {
        let ghost b = self@;
        proof {
            lemma_older(live_at(b.live, addr), seq);
            lemma_free_balanced(b, seq, addr);
        }
        let i: usize = match self.live.get(&addr) {
            None => {
                return;
            },
            Some(list) => {
                assert(b.live[addr] == live_views(list@));
                match find_older(list, seq) {
                    None => {
                        return;
                    },
                    Some(i) => i,
                }
            },
        };
        let mut list: Vec<LiveAlloc> = match self.live.remove(&addr) {
            Some(v) => v,
            None => Vec::new(),
        };
        let ghost views = live_views(list@);
        assert(views == b.live[addr]);
        proof {
            lemma_taken_is_live(b, addr, i as int);
        }
        let taken = list.remove(i);
        assert(live_views(list@) =~= views.remove(i as int));
        assert(taken@ == views[i as int]);
        if list.len() > 0 {
            self.live.insert(addr, list);
        }
        assert(self@.live =~= taken_out(b.live, addr, i as int));
        if let Some(k) = self.find_site(taken.pcs.as_slice()) {
            let mut s = self.sites[k].1;
            s.freed = s.freed + taken.sample_size;
            s.free_count = s.free_count + 1;
            self.put_site(taken.pcs.as_slice(), s);
        }
        assert(self@ =~= after_free(b, seq, addr));
    }
}

fn find_older(list: &Vec<LiveAlloc>, seq: u64) -> (r: Option<usize>)
    ensures
        match r {
            Some(i) => older(live_views(list@), seq) == Some(i as nat) && i < list@.len(),
            None => older(live_views(list@), seq) is None,
        },
{
    let ghost v = live_views(list@);
    let mut i: usize = list.len();
    assert(v.take(i as int) =~= v);
    while i > 0
        invariant
            i <= list@.len(),
            v == live_views(list@),
            older(v.take(i as int), seq) == older(v, seq),
        decreases i,
    {
        assert(v.take(i as int).last() == list@[i - 1]@);
        if list[i - 1].seq < seq {
            return Some(i - 1);
        }
        assert(v.take(i as int).drop_last() =~= v.take(i - 1));
        i -= 1;
    }
    None
}

impl Default for HeapBook {
    fn default() -> (r: Self)
        ensures
            r.wf(),
            r@ == (BookView { sites: Map::empty(), live: Map::empty() }),
    {
        HeapBook::new()
    }
}

/// What an allocation counts: its site has its bytes and one allocation more, and has
/// freed what it had; no other site changes. It is live, behind the others of its address.
pub proof fn lemma_alloc_counts_once(b: BookView, addr: u64, l: LiveView, other: Seq<u64>)
    requires
        stats_of(b.sites, l.pcs).allocated + l.sample_size <= u64::MAX,
        stats_of(b.sites, l.pcs).alloc_count < u64::MAX,
    ensures
        ({
            let a = after_alloc(b, addr, l);
            let before = stats_of(b.sites, l.pcs);
            let after = stats_of(a.sites, l.pcs);
            &&& a.sites.dom().contains(l.pcs)
            &&& after.allocated == before.allocated + l.sample_size
            &&& after.alloc_count == before.alloc_count + 1
            &&& after.freed == before.freed
            &&& after.free_count == before.free_count
            &&& other != l.pcs ==> stats_of(a.sites, other) == stats_of(b.sites, other)
            &&& live_at(a.live, addr) == live_at(b.live, addr).push(l)
        }),
{
}

/// The free of an allocation undoes it: nothing is live that was not before, and the site
/// has freed the bytes and the allocation that it gained.
pub proof fn lemma_free_undoes_alloc(b: BookView, addr: u64, l: LiveView, seq: u64)
    requires
        balanced(b),
        seq > l.seq,
        stats_of(b.sites, l.pcs).allocated + l.sample_size <= u64::MAX,
        stats_of(b.sites, l.pcs).alloc_count < u64::MAX,
    ensures
        ({
            let f = after_free(after_alloc(b, addr, l), seq, addr);
            let before = stats_of(b.sites, l.pcs);
            let after = stats_of(f.sites, l.pcs);
            &&& f.live == b.live
            &&& after.allocated == before.allocated + l.sample_size
            &&& after.alloc_count == before.alloc_count + 1
            &&& after.freed == before.freed + l.sample_size
            &&& after.free_count == before.free_count + 1
        }),
{
    let a = after_alloc(b, addr, l);
    lemma_alloc_balanced(b, addr, l);
    let list = live_at(b.live, addr).push(l);
    assert(a.live[addr] == list);
    let i = (list.len() - 1) as int;
    assert(older(list, seq) == Some(i as nat));
    assert(list.remove(i) =~= live_at(b.live, addr));
    lemma_taken_is_live(a, addr, i);
    let f = after_free(a, seq, addr);
    assert(f.live =~= b.live);
}

/// A free leaves what was allocated as it is, at every site; where no allocation of its
/// address is older than it, it leaves everything.
pub proof fn lemma_free_leaves_allocated(b: BookView, seq: u64, addr: u64, pcs: Seq<u64>)
    ensures
        ({
            let f = after_free(b, seq, addr);
            &&& stats_of(f.sites, pcs).allocated == stats_of(b.sites, pcs).allocated
            &&& stats_of(f.sites, pcs).alloc_count == stats_of(b.sites, pcs).alloc_count
            &&& (forall|j: int|
                0 <= j < live_at(b.live, addr).len() ==> (#[trigger] live_at(
                    b.live,
                    addr,
                )[j]).seq >= seq) ==> f == b
        }),
{
    lemma_older(live_at(b.live, addr), seq);
}

/// The book after the first `n` of some allocations.
pub open spec fn after_allocs(b: BookView, allocs: Seq<(u64, LiveView)>, n: nat) -> BookView
    decreases n,
{
    if n == 0 {
        b
    } else {
        after_alloc(after_allocs(b, allocs, (n - 1) as nat), allocs[n - 1].0, allocs[n - 1].1)
    }
}

/// The bytes that the first `n` allocations took at a callstack.
pub open spec fn bytes_at(allocs: Seq<(u64, LiveView)>, pcs: Seq<u64>, n: nat) -> nat
    decreases n,
{
    if n == 0 {
        0
    } else if allocs[n - 1].1.pcs == pcs {
        bytes_at(allocs, pcs, (n - 1) as nat) + allocs[n - 1].1.sample_size as nat
    } else {
        bytes_at(allocs, pcs, (n - 1) as nat)
    }
}

/// A site has counted just the allocations that were made at its callstack.
pub proof fn lemma_site_counts_its_own(
    b: BookView,
    allocs: Seq<(u64, LiveView)>,
    pcs: Seq<u64>,
    n: nat,
)
    requires
        n <= allocs.len(),
        stats_of(b.sites, pcs).allocated + bytes_at(allocs, pcs, n) <= u64::MAX,
    ensures
        stats_of(after_allocs(b, allocs, n).sites, pcs).allocated == stats_of(
            b.sites,
            pcs,
        ).allocated + bytes_at(allocs, pcs, n),
        stats_of(after_allocs(b, allocs, n).sites, pcs).freed == stats_of(b.sites, pcs).freed,
    decreases n,
{
    if n > 0 {
        lemma_site_counts_its_own(b, allocs, pcs, (n - 1) as nat);
    }
}

} // verus!
