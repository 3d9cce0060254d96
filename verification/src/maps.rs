//! Maps keyed by sequence identifiers: ordered keys, size totals, and views of the
//! stored values.

use std::collections::hash_map::Entry;
use std::collections::HashMap;
use vstd::prelude::*;

verus! {

broadcast use vstd::std_specs::hash::group_hash_axioms;

/// `m` with every value replaced by its view.
pub open spec fn view_values<V: View>(m: Map<u64, V>) -> Map<u64, V::V> {
    Map::new(|k: u64| m.contains_key(k), |k: u64| m[k]@)
}

/// Viewing commutes with insertion.
pub broadcast proof fn lemma_view_insert<V: View>(m: Map<u64, V>, k: u64, v: V)
    ensures
        #[trigger] view_values(m.insert(k, v)) == view_values(m).insert(k, v@),
{
    assert(view_values(m.insert(k, v)) =~= view_values(m).insert(k, v@));
}

/// Viewing commutes with removal.
pub broadcast proof fn lemma_view_remove<V: View>(m: Map<u64, V>, k: u64)
    ensures
        #[trigger] view_values(m.remove(k)) == view_values(m).remove(k),
{
    assert(view_values(m.remove(k)) =~= view_values(m).remove(k));
}

/// The view of the empty map.
pub broadcast proof fn lemma_view_empty<V: View>()
    ensures
        #[trigger] view_values(Map::<u64, V>::empty()) == Map::<u64, V::V>::empty(),
{
    assert(view_values(Map::<u64, V>::empty()) =~= Map::<u64, V::V>::empty());
}

/// The view has the same keys.
pub broadcast proof fn lemma_view_dom<V: View>(m: Map<u64, V>)
    ensures
        #[trigger] view_values(m).dom() == m.dom(),
{
    assert(view_values(m).dom() =~= m.dom());
}

pub broadcast group group_view_values {
    lemma_view_insert,
    lemma_view_remove,
    lemma_view_empty,
    lemma_view_dom,
}

/// `s` with every element replaced by its view.
pub open spec fn view_all<V: View>(s: Seq<V>) -> Seq<V::V> {
    s.map_values(|v: V| v@)
}

/// Viewing commutes with appending an element.
pub broadcast proof fn lemma_view_push<V: View>(s: Seq<V>, v: V)
    ensures
        #[trigger] view_all(s.push(v)) == view_all(s).push(v@),
{
    assert(view_all(s.push(v)) =~= view_all(s).push(v@));
}

/// Viewing commutes with cutting out a range.
pub broadcast proof fn lemma_view_subrange<V: View>(s: Seq<V>, i: int, j: int)
    requires
        0 <= i <= j <= s.len(),
    ensures
        #[trigger] view_all(s.subrange(i, j)) == view_all(s).subrange(i, j),
{
    assert(view_all(s.subrange(i, j)) =~= view_all(s).subrange(i, j));
}

/// The view of the empty sequence.
pub broadcast proof fn lemma_view_nothing<V: View>()
    ensures
        #[trigger] view_all(Seq::<V>::empty()) == Seq::<V::V>::empty(),
{
    assert(view_all(Seq::<V>::empty()) =~= Seq::<V::V>::empty());
}

pub broadcast group group_view_all {
    lemma_view_push,
    lemma_view_subrange,
    lemma_view_nothing,
}

/// Strictly increasing.
pub open spec fn ascending(s: Seq<u64>) -> bool {
    forall|i: int, j: int| 0 <= i < j < s.len() ==> s[i] < s[j]
}

/// The members of a finite set, in increasing order.
pub open spec fn in_order(keys: Set<u64>) -> Seq<u64> {
    choose|s: Seq<u64>| ascending(s) && #[trigger] s.to_set() == keys
}

/// The members below a bound, in increasing order.
proof fn lemma_ordered_below(keys: Set<u64>, n: int) -> (s: Seq<u64>)
    requires
        0 <= n <= 0x1_0000_0000_0000_0000,
    ensures
        ascending(s),
        s.to_set() == Set::new(|k: u64| keys.contains(k) && k < n),
    decreases n,
{
    if n == 0 {
        let s = Seq::<u64>::empty();
        assert(s.to_set() =~= Set::new(|k: u64| keys.contains(k) && k < n));
        s
    } else {
        let before = lemma_ordered_below(keys, n - 1);
        let last = (n - 1) as u64;
        let s = if keys.contains(last) {
            before.push(last)
        } else {
            before
        };
        assert forall|i: int| 0 <= i < before.len() implies #[trigger] before[i] < n - 1 by {
            assert(before.to_set().contains(before[i]));
        }
        assert forall|k: u64| s.to_set().contains(k) == (keys.contains(k) && k < n) by {
            if keys.contains(k) && k < n - 1 {
                assert(before.to_set().contains(k));
                let i = choose|i: int| 0 <= i < before.len() && before[i] == k;
                assert(s[i] == k);
            }
            if keys.contains(k) && k == n - 1 {
                assert(s[before.len() as int] == k);
            }
            if s.contains(k) {
                let i = choose|i: int| 0 <= i < s.len() && s[i] == k;
                if i < before.len() {
                    assert(before.to_set().contains(before[i]));
                }
            }
        }
        assert(s.to_set() =~= Set::new(|k: u64| keys.contains(k) && k < n));
        s
    }
}

/// A set has its members in increasing order.
pub proof fn lemma_ordered(keys: Set<u64>)
    ensures
        ascending(in_order(keys)),
        in_order(keys).to_set() == keys,
        in_order(keys).no_duplicates(),
{
    let s = lemma_ordered_below(keys, 0x1_0000_0000_0000_0000);
    assert(s.to_set() =~= keys);
}

/// Two increasing sequences with the same members are equal.
pub proof fn lemma_ascending_unique(a: Seq<u64>, b: Seq<u64>)
    requires
        ascending(a),
        ascending(b),
        a.to_set() == b.to_set(),
    ensures
        a == b,
    decreases a.len(),
{
    if a.len() == 0 {
        if b.len() > 0 {
            assert(b.to_set().contains(b[0]));
            assert(a.to_set().contains(b[0]));
        }
        assert(a =~= b);
    } else {
        assert(a.to_set().contains(a.last()));
        assert(b.contains(a.last()));
        assert(b.to_set().contains(b.last()));
        assert(a.contains(b.last()));
        let i = choose|i: int| 0 <= i < b.len() && b[i] == a.last();
        let j = choose|j: int| 0 <= j < a.len() && a[j] == b.last();
        assert(a.last() == b.last());
        let a1 = a.drop_last();
        let b1 = b.drop_last();
        assert forall|x: u64| a1.to_set().contains(x) == b1.to_set().contains(x) by {
            if a1.contains(x) {
                let p = choose|p: int| 0 <= p < a1.len() && a1[p] == x;
                assert(a[p] == x);
                assert(a.to_set().contains(x));
                assert(b.contains(x));
                let q = choose|q: int| 0 <= q < b.len() && b[q] == x;
                assert(b1[q] == x);
            }
            if b1.contains(x) {
                let p = choose|p: int| 0 <= p < b1.len() && b1[p] == x;
                assert(b[p] == x);
                assert(b.to_set().contains(x));
                assert(a.contains(x));
                let q = choose|q: int| 0 <= q < a.len() && a[q] == x;
                assert(a1[q] == x);
            }
        }
        assert(a1.to_set() =~= b1.to_set());
        lemma_ascending_unique(a1, b1);
        assert(a =~= a1.push(a.last()));
        assert(b =~= b1.push(b.last()));
    }
}

/// An increasing sequence lists its own members in order.
pub proof fn lemma_in_order(s: Seq<u64>)
    requires
        ascending(s),
    ensures
        in_order(s.to_set()) == s,
{
    let t = in_order(s.to_set());
    assert(ascending(s) && s.to_set() == s.to_set());
    lemma_ascending_unique(t, s);
}

/// Inserts `key` at its place among increasing keys.
fn insert_ascending(keys: &mut Vec<u64>, key: u64)
    requires
        ascending(old(keys)@),
        !old(keys)@.contains(key),
    ensures
        ascending(final(keys)@),
        final(keys)@.to_set() == old(keys)@.to_set().insert(key),
{
    let ghost before = keys@;
    let mut at: usize = keys.len();
    while at > 0 && keys[at - 1] > key
        invariant
            at <= keys@.len(),
            keys@ == before,
            ascending(before),
            forall|i: int| at <= i < before.len() ==> before[i] > key,
        decreases at,
    {
        at = at - 1;
    }
    keys.insert(at, key);
    proof {
        let after = keys@;
        assert(forall|i: int| 0 <= i < before.len() ==> before.contains(#[trigger] before[i]));
        assert(after[at as int] == key);
        assert forall|x: u64|
            after.to_set().contains(x) == before.to_set().insert(key).contains(x) by {
            if before.contains(x) {
                let p = choose|p: int| 0 <= p < before.len() && before[p] == x;
                if p < at {
                    assert(after[p] == x);
                } else {
                    assert(after[p + 1] == x);
                }
            }
            if after.contains(x) {
                let p = choose|p: int| 0 <= p < after.len() && after[p] == x;
                if p < at {
                    assert(before[p] == x);
                } else if p > at {
                    assert(before[p - 1] == x);
                }
            }
        }
        assert(after.to_set() =~= before.to_set().insert(key));
    }
}

/// The keys of a map, in increasing order.
pub fn sorted_keys<V>(m: &HashMap<u64, V>) -> (r: Vec<u64>)
    ensures
        ascending(r@),
        r@.to_set() == m@.dom(),
        r@ == in_order(m@.dom()),
{
    let mut r: Vec<u64> = Vec::new();
    assert(r@.to_set() =~= Set::<u64>::empty());
    for k in it: m.keys()
        invariant
            ascending(r@),
            r@.to_set() == it.seq().unref().take(it.index()).to_set(),
            it.seq().no_duplicates(),
            it.seq().unref().to_set() == m@.dom(),
            it.seq().unref().take(it.seq().len() as int) == it.seq().unref(),
    {
        let ghost seen = it.seq().unref().take(it.index());
        let ghost more = it.seq().unref().take(it.index() + 1);
        proof {
            assert(more =~= seen.push(*k));
            assert(more.to_set() =~= seen.to_set().insert(*k)) by {
                assert(more[seen.len() as int] == *k);
                assert forall|x: u64| seen.contains(x) implies more.contains(x) by {
                    let p = choose|p: int| 0 <= p < seen.len() && seen[p] == x;
                    assert(more[p] == x);
                }
            }
            if r@.contains(*k) {
                assert(r@.to_set().contains(*k));
                assert(seen.contains(*k));
                let p = choose|p: int| 0 <= p < seen.len() && seen[p] == *k;
                assert(it.seq()[p] == it.seq()[it.index()]);
                assert(false);
            }
        }
        insert_ascending(&mut r, *k);
    }
    proof {
        assert(r@.to_set() =~= m@.dom());
        lemma_in_order(r@);
    }
    r
}

/// The lengths of all values of a finite map, added up.
pub open spec fn total_len(m: Map<u64, Seq<usize>>) -> nat
    decreases m.dom().len(),
    when m.dom().finite()
{
    if m.dom().len() == 0 {
        0
    } else {
        let k = m.dom().choose();
        m[k].len() + total_len(m.remove(k))
    }
}

/// Any key may be counted first.
pub proof fn lemma_total_len_remove(m: Map<u64, Seq<usize>>, k: u64)
    requires
        m.dom().finite(),
        m.contains_key(k),
    ensures
        total_len(m) == m[k].len() + total_len(m.remove(k)),
    decreases m.dom().len(),
{
    assert(m.dom().len() > 0) by {
        assert(m.dom().contains(k));
    }
    let c = m.dom().choose();
    assert(m.dom().contains(c));
    if c != k {
        assert(m.remove(c).contains_key(k));
        assert(m.remove(k).contains_key(c));
        lemma_total_len_remove(m.remove(c), k);
        lemma_total_len_remove(m.remove(k), c);
        assert(m.remove(c).remove(k) =~= m.remove(k).remove(c));
    }
}

/// The lengths of all values of a map, added up.
pub fn count_all(m: &HashMap<u64, Vec<usize>>) -> (r: usize)
    requires
        total_len(view_values(m@)) <= usize::MAX,
    ensures
        r == total_len(view_values(m@)),
{
    broadcast use group_view_values;

    let keys = sorted_keys(m);
    let ghost all = view_values(m@);
    let ghost mut left = all;
    let mut n: usize = 0;
    let mut i: usize = 0;
    proof {
        vstd::seq_lib::seq_to_set_is_finite(keys@);
    }
    while i < keys.len()
        invariant
            i <= keys@.len(),
            ascending(keys@),
            keys@.to_set() == m@.dom(),
            all == view_values(m@),
            left.dom().finite(),
            left.submap_of(all),
            forall|s: u64| #[trigger]
                left.contains_key(s) <==> exists|j: int| i <= j < keys@.len() && keys@[j] == s,
            n + total_len(left) == total_len(all),
            total_len(all) <= usize::MAX,
        decreases keys@.len() - i,
    {
        let key: u64 = keys[i];
        proof {
            assert(keys@.to_set().contains(keys@[i as int]));
            assert(left.contains_key(key));
            lemma_total_len_remove(left, key);
        }
        match m.get(&key) {
            Some(v) => {
                assert(all.contains_key(key));
                n = n + v.len();
            },
            None => {
                assert(false);
            },
        }
        proof {
            left = left.remove(key);
            assert forall|s: u64| #[trigger] left.contains_key(s) <==> exists|j: int|
                i + 1 <= j < keys@.len() && keys@[j] == s by {
                if exists|j: int| i + 1 <= j < keys@.len() && keys@[j] == s {
                    let j = choose|j: int| i + 1 <= j < keys@.len() && keys@[j] == s;
                    assert(keys@[i as int] < keys@[j]);
                }
            }
        }
        i = i + 1;
    }
    assert(left.dom() =~= Set::<u64>::empty());
    n
}

/// Borrows the value of a key for changing it.
pub fn value_mut<V>(m: &mut HashMap<u64, V>, key: u64) -> (r: Option<&mut V>)
    ensures
        match r {
            Some(v) => {
                &&& old(m)@.contains_key(key)
                &&& *v == old(m)@[key]
                &&& final(m)@ == old(m)@.insert(key, *final(v))
            },
            None => !old(m)@.contains_key(key) && final(m)@ == old(m)@,
        },
{
    match m.entry(key) {
        Entry::Occupied(o) => Some(o.into_mut()),
        Entry::Vacant(_) => None,
    }
}

/// Whether a token is in a list.
pub fn lists(list: &[u32], token: u32) -> (r: bool)
    ensures
        r == list@.contains(token),
{
    let mut i: usize = 0;
    while i < list.len()
        invariant
            i <= list@.len(),
            forall|j: int| 0 <= j < i ==> #[trigger] list@[j] != token,
        decreases list@.len() - i,
    {
        if list[i] == token {
            return true;
        }
        i = i + 1;
    }
    false
}

} // verus!
