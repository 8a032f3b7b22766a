//! Association lists: small maps whose keys are compared one by one.

use vstd::prelude::*;

verus! {

/// No key occurs twice.
pub open spec fn distinct_keys<K, V>(s: Seq<(K, V)>) -> bool {
    forall|i: int, j: int| 0 <= i < s.len() && 0 <= j < s.len() && i != j ==> s[i].0 != s[j].0
}

/// Whether `k` is a key of the list.
pub open spec fn has_key<K, V>(s: Seq<(K, V)>, k: K) -> bool {
    exists|i: int| 0 <= i < s.len() && (#[trigger] s[i]).0 == k
}

/// What the list says of `k`.
pub open spec fn value_of<K, V>(s: Seq<(K, V)>, k: K) -> V {
    s[choose|i: int| 0 <= i < s.len() && (#[trigger] s[i]).0 == k].1
}

/// The list as a map.
pub open spec fn as_map<K, V>(s: Seq<(K, V)>) -> Map<K, V> {
    Map::new(|k: K| has_key(s, k), |k: K| value_of(s, k))
}

pub proof fn lemma_empty<K, V>(s: Seq<(K, V)>)
    requires
        s.len() == 0,
    ensures
        as_map(s) == Map::<K, V>::empty(),
        distinct_keys(s),
{
    assert(as_map(s) =~= Map::empty());
}

/// The entry at `i` is what the map holds under its key.
pub proof fn lemma_entry<K, V>(s: Seq<(K, V)>, i: int)
    requires
        distinct_keys(s),
        0 <= i < s.len(),
    ensures
        as_map(s).dom().contains(s[i].0),
        as_map(s)[s[i].0] == s[i].1,
{
    let k = s[i].0;
    assert(has_key(s, k));
    let j = choose|j: int| 0 <= j < s.len() && (#[trigger] s[j]).0 == k;
    assert(j == i);
}

/// Adding a key that is new.
pub proof fn lemma_push<K, V>(s: Seq<(K, V)>, k: K, v: V)
    requires
        distinct_keys(s),
        !has_key(s, k),
    ensures
        distinct_keys(s.push((k, v))),
        as_map(s.push((k, v))) == as_map(s).insert(k, v),
{
    let t = s.push((k, v));
    assert forall|i: int, j: int| 0 <= i < t.len() && 0 <= j < t.len() && i != j implies t[i].0
        != t[j].0 by {
        if i == s.len() {
            assert(s[j].0 != k);
        } else if j == s.len() {
            assert(s[i].0 != k);
        }
    }
    lemma_entry(t, s.len() as int);
    assert forall|x: K| #[trigger] has_key(t, x) == (has_key(s, x) || x == k) by {
        if has_key(s, x) {
            let i = choose|i: int| 0 <= i < s.len() && (#[trigger] s[i]).0 == x;
            assert(t[i].0 == x);
        }
        if has_key(t, x) {
            let i = choose|i: int| 0 <= i < t.len() && (#[trigger] t[i]).0 == x;
            if i < s.len() {
                assert(s[i].0 == x);
            }
        }
        assert(t[s.len() as int].0 == k);
    }
    assert forall|x: K| has_key(s, x) implies as_map(t)[x] == as_map(s)[x] by {
        let i = choose|i: int| 0 <= i < s.len() && (#[trigger] s[i]).0 == x;
        lemma_entry(s, i);
        lemma_entry(t, i);
        assert(t[i] == s[i]);
    }
    assert(as_map(t) =~= as_map(s).insert(k, v));
}

/// Replacing what stands under a key.
pub proof fn lemma_update<K, V>(s: Seq<(K, V)>, i: int, v: V)
    requires
        distinct_keys(s),
        0 <= i < s.len(),
    ensures
        distinct_keys(s.update(i, (s[i].0, v))),
        as_map(s.update(i, (s[i].0, v))) == as_map(s).insert(s[i].0, v),
{
    let t = s.update(i, (s[i].0, v));
    assert forall|a: int| 0 <= a < s.len() implies (#[trigger] t[a]).0 == s[a].0 by {}
    assert(distinct_keys(t)) by {
        assert forall|a: int, b: int| 0 <= a < t.len() && 0 <= b < t.len() && a != b implies t[a].0
            != t[b].0 by {
            assert(t[a].0 == s[a].0 && t[b].0 == s[b].0);
        }
    }
    assert forall|x: K| #[trigger] has_key(t, x) == has_key(s, x) by {
        if has_key(s, x) {
            let j = choose|j: int| 0 <= j < s.len() && (#[trigger] s[j]).0 == x;
            assert(t[j].0 == x);
        }
        if has_key(t, x) {
            let j = choose|j: int| 0 <= j < t.len() && (#[trigger] t[j]).0 == x;
            assert(s[j].0 == x);
        }
    }
    lemma_entry(t, i);
    lemma_entry(s, i);
    assert forall|x: K| has_key(s, x) && x != s[i].0 implies as_map(t)[x] == as_map(s)[x] by {
        let j = choose|j: int| 0 <= j < s.len() && (#[trigger] s[j]).0 == x;
        lemma_entry(s, j);
        lemma_entry(t, j);
        assert(t[j] == s[j]);
    }
    assert(as_map(t) =~= as_map(s).insert(s[i].0, v));
}

/// The map has as many keys as the list has entries.
pub proof fn lemma_len<K, V>(s: Seq<(K, V)>)
    requires
        distinct_keys(s),
    ensures
        as_map(s).dom().finite(),
        as_map(s).dom().len() == s.len(),
    decreases s.len(),
{
    if s.len() == 0 {
        lemma_empty(s);
    } else {
        let t = s.drop_last();
        let k = s.last().0;
        assert(distinct_keys(t)) by {
            assert forall|i: int, j: int| 0 <= i < t.len() && 0 <= j < t.len() && i != j implies t[i].0
                != t[j].0 by {
                assert(s[i].0 != s[j].0);
            }
        }
        assert(!has_key(t, k)) by {
            if has_key(t, k) {
                let i = choose|i: int| 0 <= i < t.len() && (#[trigger] t[i]).0 == k;
                assert(s[i].0 != s[s.len() - 1].0);
            }
        }
        lemma_len(t);
        lemma_push(t, k, s.last().1);
        assert(t.push((k, s.last().1)) =~= s);
        assert(as_map(s).dom() =~= as_map(t).dom().insert(k));
    }
}

} // verus!
