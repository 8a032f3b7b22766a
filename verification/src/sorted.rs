//! Lists ordered by a key, entries of one key in the order they came.

use vstd::prelude::*;

verus! {

/// What is ordered by a key.
pub trait HasKey: Sized {
    spec fn key(self) -> u64;
}

/// What tells its key.
pub trait Keyed: HasKey {
    fn key_of(&self) -> (k: u64)
        ensures
            k == self.key(),
    ;
}

pub open spec fn ordered<T: HasKey>(s: Seq<T>) -> bool {
    forall|i: int, j: int| 0 <= i <= j < s.len() ==> (#[trigger] s[i]).key() <= (#[trigger] s[j]).key()
}

/// Just behind the last entry whose key is at most `k`.
pub open spec fn slot<T: HasKey>(s: Seq<T>, k: u64) -> nat
    decreases s.len(),
{
    if s.len() == 0 || s.last().key() <= k {
        s.len()
    } else {
        slot(s.drop_last(), k)
    }
}

/// `s` ordered by key, entries of one key in the order they have in `s`.
pub open spec fn by_key<T: HasKey>(s: Seq<T>) -> Seq<T>
    decreases s.len(),
{
    if s.len() == 0 {
        s
    } else {
        let t = by_key(s.drop_last());
        t.insert(slot(t, s.last().key()) as int, s.last())
    }
}

/// In an ordered list, everything before the slot of `k` has a key of at most `k`,
/// and everything behind it a greater one.
pub proof fn lemma_slot<T: HasKey>(s: Seq<T>, k: u64)
    ensures
        slot(s, k) <= s.len(),
        slot(s, k) > 0 ==> s[slot(s, k) - 1].key() <= k,
        forall|i: int| slot(s, k) <= i < s.len() ==> (#[trigger] s[i]).key() > k,
        ordered(s) ==> forall|i: int| 0 <= i < slot(s, k) ==> (#[trigger] s[i]).key() <= k,
    decreases s.len(),
{
    if s.len() > 0 && s.last().key() > k {
        let front = s.drop_last();
        lemma_slot(front, k);
        assert forall|i: int| slot(s, k) <= i < s.len() implies (#[trigger] s[i]).key() > k by {
            if i < front.len() {
                assert(front[i].key() > k);
            }
        }
        if ordered(s) {
            assert(ordered(front)) by {
                assert forall|i: int, j: int| 0 <= i <= j < front.len() implies (
                #[trigger] front[i]).key() <= (#[trigger] front[j]).key() by {
                    assert(s[i].key() <= s[j].key());
                }
            }
            assert forall|i: int| 0 <= i < slot(s, k) implies (#[trigger] s[i]).key() <= k by {
                assert(front[i].key() <= k);
            }
        }
    }
}

/// Ordering orders, and keeps every entry.
pub proof fn lemma_by_key<T: HasKey>(s: Seq<T>)
    ensures
        ordered(by_key(s)),
        by_key(s).to_multiset() == s.to_multiset(),
        by_key(s).len() == s.len(),
    decreases s.len(),
{
    if s.len() > 0 {
        let t = by_key(s.drop_last());
        let k = slot(t, s.last().key()) as int;
        lemma_by_key(s.drop_last());
        lemma_slot(t, s.last().key());
        let r = t.insert(k, s.last());
        assert forall|i: int, j: int| 0 <= i <= j < r.len() implies (#[trigger] r[i]).key() <= (
        #[trigger] r[j]).key() by {
            if i < k {
                assert(r[i] == t[i]);
                if k > 0 {
                    assert(t[i].key() <= t[k - 1].key());
                }
            }
            if j > k {
                assert(r[j] == t[j - 1]);
            }
            if i > k {
                assert(r[i] == t[i - 1]);
            }
            if j < k {
                assert(r[j] == t[j]);
            }
        }
        broadcast use vstd::seq_lib::group_to_multiset_ensures;

        assert(s =~= s.drop_last().push(s.last()));
        assert(s.to_multiset() =~= s.drop_last().to_multiset().insert(s.last()));
        vstd::seq_lib::to_multiset_insert(t, k, s.last());
    }
}

/// Lists that have the same keys, entry for entry, have the same slots.
pub proof fn lemma_slot_by_keys<T: HasKey, U: HasKey>(s: Seq<T>, t: Seq<U>, k: u64)
    requires
        s.len() == t.len(),
        forall|i: int| 0 <= i < s.len() ==> (#[trigger] s[i]).key() == (#[trigger] t[i]).key(),
    ensures
        slot(s, k) == slot(t, k),
    decreases s.len(),
{
    if s.len() > 0 {
        assert(s.last().key() == t.last().key());
        let a = s.drop_last();
        let b = t.drop_last();
        assert forall|i: int| 0 <= i < a.len() implies (#[trigger] a[i]).key() == (
        #[trigger] b[i]).key() by {
            assert(s[i].key() == t[i].key());
        }
        lemma_slot_by_keys(a, b, k);
    }
}

/// Just behind the last entry whose key is at most `k`.
pub fn slot_of<T: Keyed>(v: &Vec<T>, k: u64) -> (i: usize)
    ensures
        i == slot(v@, k),
        i <= v@.len(),
{
    let mut i: usize = v.len();
    assert(v@.take(i as int) =~= v@);
    while i > 0 && v[i - 1].key_of() > k
        invariant
            i <= v@.len(),
            slot(v@.take(i as int), k) == slot(v@, k),
        decreases i,
    {
        assert(v@.take(i as int).drop_last() =~= v@.take(i - 1));
        i -= 1;
    }
    i
}

/// Put an entry in its place.
pub fn insert_by_key<T: Keyed>(v: &mut Vec<T>, x: T)
    ensures
        final(v)@ == old(v)@.insert(slot(old(v)@, x.key()) as int, x),
{
    let k: u64 = x.key_of();
    let i: usize = slot_of(v, k);
    v.insert(i, x);
}

/// Order a list by key.
pub fn sort_by_key<T: Keyed>(v: Vec<T>) -> (r: Vec<T>)
    ensures
        r@ == by_key(v@),
{
    let ghost all = v@;
    let mut rest = v;
    let mut turned: Vec<T> = Vec::new();
    while rest.len() > 0
        invariant
            rest@ + turned@.reverse() == all,
        decreases rest@.len(),
    {
        let ghost before = rest@;
        let ghost done = turned@;
        match rest.pop() {
            Some(x) => {
                turned.push(x);
                assert(rest@ + turned@.reverse() =~= before + done.reverse());
            },
            None => {},
        }
    }
    assert(turned@.reverse() =~= all);
    let mut r: Vec<T> = Vec::new();
    assert(all.take(0) =~= Seq::empty());
    while turned.len() > 0
        invariant
            turned@.len() <= all.len(),
            turned@.reverse() == all.skip(all.len() - turned@.len()),
            r@ == by_key(all.take(all.len() - turned@.len())),
        decreases turned@.len(),
    {
        let ghost before = turned@;
        let ghost n = all.len() - turned@.len();
        match turned.pop() {
            Some(x) => {
                proof {
                    assert(before.reverse()[0] == x);
                    assert(all.skip(n)[0] == all[n]);
                    assert(all.take(n + 1).drop_last() =~= all.take(n));
                    assert(turned@.reverse() =~= before.reverse().drop_first());
                    assert(all.skip(n).drop_first() =~= all.skip(n + 1));
                }
                insert_by_key(&mut r, x);
            },
            None => {},
        }
    }
    assert(all.take(all.len() as int) =~= all);
    r
}

/// Entries with the same key stay in their order: an entry that comes last goes behind all
/// that have its key or a lower one, and before all that have a higher one.
pub proof fn lemma_last_goes_behind<T: HasKey>(s: Seq<T>, x: T)
    ensures
        ({
            let t = by_key(s);
            let k = slot(t, x.key()) as int;
            &&& 0 <= k <= t.len()
            &&& by_key(s.push(x)) == t.insert(k, x)
            &&& forall|i: int| 0 <= i < k ==> (#[trigger] t[i]).key() <= x.key()
            &&& forall|i: int| k <= i < t.len() ==> (#[trigger] t[i]).key() > x.key()
        }),
{
    lemma_by_key(s);
    lemma_slot(by_key(s), x.key());
    assert(s.push(x).drop_last() =~= s);
}

} // verus!
