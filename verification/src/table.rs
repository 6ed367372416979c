//! Sequences of entries as ordered tables: what it means for one to be
//! sorted, the mapping it stands for, and how a write changes it.

use vstd::prelude::*;
use crate::codec::EntryView;
use crate::order::{
    key_lt, lemma_key_lt_asymmetric, lemma_key_lt_connected, lemma_key_lt_irreflexive,
    lemma_key_lt_transitive,
};

verus! {

/// Whether the keys of the entries ascend strictly, so that no key occurs
/// twice.
pub open spec fn sorted(s: Seq<EntryView>) -> bool {
    forall|i: int, j: int|
        #![trigger s[i], s[j]]
        0 <= i < j < s.len() ==> key_lt(s[i].0, s[j].0)
}

/// The mapping that results from writing the entries in order into an empty
/// table: each key maps to the value of its last entry.
pub open spec fn as_map(s: Seq<EntryView>) -> Map<Seq<u8>, Seq<u8>>
    decreases s.len(),
{
    if s.len() == 0 {
        Map::empty()
    } else {
        as_map(s.drop_last()).insert(s.last().0, s.last().1)
    }
}

/// The sum of the lengths of all keys and values.
pub open spec fn total_size(s: Seq<EntryView>) -> nat
    decreases s.len(),
{
    if s.len() == 0 {
        0
    } else {
        total_size(s.drop_last()) + s.last().0.len() + s.last().1.len()
    }
}

/// Whether `p` parts the sorted entries into those whose key comes before
/// `key` and the others.
pub open spec fn is_slot(s: Seq<EntryView>, key: Seq<u8>, p: int) -> bool {
    &&& 0 <= p <= s.len()
    &&& forall|i: int| 0 <= i < p ==> key_lt(#[trigger] s[i].0, key)
    &&& forall|i: int| p <= i < s.len() ==> !key_lt(#[trigger] s[i].0, key)
}

/// The number of entries at the front of the sorted entries whose key comes
/// before `key`: the index at which `key` stands or belongs.
pub open spec fn slot(s: Seq<EntryView>, key: Seq<u8>) -> int
    decreases s.len(),
{
    if s.len() == 0 {
        0
    } else if key_lt(s.last().0, key) {
        s.len() as int
    } else {
        slot(s.drop_last(), key)
    }
}

/// The sorted entries after `key` is written with `value`: the value
/// replaces that of the entry with this key, or a new entry takes its place
/// in the order.
pub open spec fn put_entry(s: Seq<EntryView>, key: Seq<u8>, value: Seq<u8>) -> Seq<EntryView> {
    let p = slot(s, key);
    if p < s.len() && s[p].0 == key {
        s.update(p, (key, value))
    } else {
        s.insert(p, (key, value))
    }
}

/// The entries written in order into a sorted table.
pub open spec fn put_all(s: Seq<EntryView>, writes: Seq<EntryView>) -> Seq<EntryView>
    decreases writes.len(),
{
    if writes.len() == 0 {
        s
    } else {
        put_entry(put_all(s, writes.drop_last()), writes.last().0, writes.last().1)
    }
}

/// The value that the sorted entries hold for `key`, if any.
pub open spec fn lookup(s: Seq<EntryView>, key: Seq<u8>) -> Option<Seq<u8>> {
    if as_map(s).contains_key(key) {
        Some(as_map(s)[key])
    } else {
        None
    }
}

/// A key is in the mapping exactly if an entry has it.
pub proof fn lemma_as_map_keys(s: Seq<EntryView>, key: Seq<u8>)
    ensures
        as_map(s).contains_key(key) <==> exists|i: int| 0 <= i < s.len() && #[trigger] s[i].0 == key,
    decreases s.len(),
{
    if s.len() > 0 {
        let front = s.drop_last();
        lemma_as_map_keys(front, key);
        if as_map(s).contains_key(key) {
            if s.last().0 == key {
                assert(s[s.len() - 1].0 == key);
            } else {
                let i = choose|i: int| 0 <= i < front.len() && #[trigger] front[i].0 == key;
                assert(s[i].0 == key);
            }
        }
        if exists|i: int| 0 <= i < s.len() && #[trigger] s[i].0 == key {
            let i = choose|i: int| 0 <= i < s.len() && #[trigger] s[i].0 == key;
            if i < s.len() - 1 {
                assert(front[i].0 == key);
            }
        }
    }
}

/// In sorted entries each key maps to the value of its one entry.
pub proof fn lemma_as_map_sorted(s: Seq<EntryView>, i: int)
    requires
        sorted(s),
        0 <= i < s.len(),
    ensures
        as_map(s).contains_key(s[i].0),
        as_map(s)[s[i].0] == s[i].1,
    decreases s.len(),
{
    let front = s.drop_last();
    if i < s.len() - 1 {
        assert(sorted(front)) by {
            assert forall|a: int, b: int|
                #![trigger front[a], front[b]]
                0 <= a < b < front.len() implies key_lt(front[a].0, front[b].0) by {
                assert(key_lt(s[a].0, s[b].0));
            }
        }
        lemma_as_map_sorted(front, i);
        assert(front[i] == s[i]);
        assert(key_lt(s[i].0, s[s.len() - 1].0));
        lemma_key_lt_irreflexive(s[i].0);
    }
}

/// The front of sorted entries is sorted.
pub proof fn lemma_sorted_drop_last(s: Seq<EntryView>)
    requires
        sorted(s),
        s.len() > 0,
    ensures
        sorted(s.drop_last()),
{
    let front = s.drop_last();
    assert forall|a: int, b: int|
        #![trigger front[a], front[b]]
        0 <= a < b < front.len() implies key_lt(front[a].0, front[b].0) by {
        assert(key_lt(s[a].0, s[b].0));
    }
}

/// The index that `slot` gives parts the sorted entries at `key`.
pub proof fn lemma_slot(s: Seq<EntryView>, key: Seq<u8>)
    requires
        sorted(s),
    ensures
        is_slot(s, key, slot(s, key)),
    decreases s.len(),
{
    if s.len() > 0 {
        let last = s.len() - 1;
        if key_lt(s.last().0, key) {
            assert forall|i: int| 0 <= i < s.len() implies key_lt(#[trigger] s[i].0, key) by {
                if i < last {
                    assert(key_lt(s[i].0, s[last].0));
                    lemma_key_lt_transitive(s[i].0, s[last].0, key);
                }
            }
        } else {
            let front = s.drop_last();
            lemma_sorted_drop_last(s);
            lemma_slot(front, key);
            let p = slot(front, key);
            assert forall|i: int| 0 <= i < p implies key_lt(#[trigger] s[i].0, key) by {
                assert(front[i] == s[i]);
            }
            assert forall|i: int| p <= i < s.len() implies !key_lt(#[trigger] s[i].0, key) by {
                if i < last {
                    assert(front[i] == s[i]);
                }
            }
        }
    }
}

/// Only one index parts the sorted entries at `key`.
pub proof fn lemma_slot_unique(s: Seq<EntryView>, key: Seq<u8>, p: int)
    requires
        sorted(s),
        is_slot(s, key, p),
    ensures
        p == slot(s, key),
{
    lemma_slot(s, key);
    let q = slot(s, key);
    if p < q {
        assert(key_lt(s[p].0, key));
    } else if q < p {
        assert(key_lt(s[q].0, key));
    }
}

/// A write keeps the entries sorted and changes the mapping at its key only.
pub proof fn lemma_put_entry(s: Seq<EntryView>, key: Seq<u8>, value: Seq<u8>)
    requires
        sorted(s),
    ensures
        sorted(put_entry(s, key, value)),
        as_map(put_entry(s, key, value)) == as_map(s).insert(key, value),
        put_entry(s, key, value).len() == if as_map(s).contains_key(key) {
            s.len()
        } else {
            s.len() + 1
        },
{
    lemma_slot(s, key);
    let p = slot(s, key);
    let t = put_entry(s, key, value);
    let hit = p < s.len() && s[p].0 == key;
    // Every entry from the slot on that has another key comes after `key`.
    assert forall|i: int| p <= i < s.len() && s[i].0 != key implies key_lt(key, #[trigger] s[i].0) by {
        if !key_lt(key, s[i].0) {
            lemma_key_lt_connected(s[i].0, key);
        }
    }
    if hit {
        assert forall|i: int| p < i < s.len() implies #[trigger] s[i].0 != key by {
            assert(key_lt(s[p].0, s[i].0));
            lemma_key_lt_irreflexive(key);
        }
    } else {
        assert forall|i: int| 0 <= i < s.len() implies #[trigger] s[i].0 != key by {
            if i < p {
                assert(key_lt(s[i].0, key));
                lemma_key_lt_irreflexive(key);
            } else if s[i].0 == key {
                if i == p {
                } else {
                    assert(key_lt(s[p].0, s[i].0));
                    assert(key_lt(key, s[p].0));
                    lemma_key_lt_asymmetric(key, s[p].0);
                }
            }
        }
    }
    // Where each entry of the new table comes from.
    assert forall|a: int, b: int|
        #![trigger t[a], t[b]]
        0 <= a < b < t.len() implies key_lt(t[a].0, t[b].0) by {
        if hit {
            assert(key_lt(s[a].0, s[b].0));
        } else {
            let a0 = if a < p { a } else { a - 1 };
            let b0 = if b < p { b } else { b - 1 };
            if a == p {
                assert(t[b] == s[b0]);
                assert(s[b0].0 != key);
            } else if b == p {
                assert(t[a] == s[a0]);
                assert(key_lt(s[a0].0, key));
            } else {
                assert(t[a] == s[a0]);
                assert(t[b] == s[b0]);
                assert(key_lt(s[a0].0, s[b0].0));
            }
        }
    }
    let m = as_map(s).insert(key, value);
    assert forall|k: Seq<u8>| as_map(t).contains_key(k) <==> m.contains_key(k) by {
        lemma_as_map_keys(t, k);
        lemma_as_map_keys(s, k);
        if as_map(t).contains_key(k) && k != key {
            let i = choose|i: int| 0 <= i < t.len() && #[trigger] t[i].0 == k;
            if hit {
                assert(s[i].0 == k);
            } else {
                let i0 = if i < p { i } else { i - 1 };
                assert(t[i] == s[i0]);
                assert(s[i0].0 == k);
            }
        }
        if m.contains_key(k) {
            if k == key {
                assert(t[p].0 == key);
            } else {
                let i = choose|i: int| 0 <= i < s.len() && #[trigger] s[i].0 == k;
                if hit {
                    assert(t[i].0 == k);
                } else {
                    let i1 = if i < p { i } else { i + 1 };
                    assert(t[i1] == s[i]);
                    assert(t[i1].0 == k);
                }
            }
        }
    }
    assert forall|k: Seq<u8>| as_map(t).contains_key(k) implies as_map(t)[k] == m[k] by {
        lemma_as_map_keys(t, k);
        let i = choose|i: int| 0 <= i < t.len() && #[trigger] t[i].0 == k;
        lemma_as_map_sorted(t, i);
        if k == key {
            lemma_as_map_sorted(t, p);
        } else if hit {
            assert(t[i] == s[i]);
            lemma_as_map_sorted(s, i);
        } else {
            let i0 = if i < p { i } else { i - 1 };
            assert(t[i] == s[i0]);
            lemma_as_map_sorted(s, i0);
        }
    }
    assert(as_map(t) =~= m);
    lemma_as_map_keys(s, key);
    if hit {
        assert(s[p].0 == key);
    }
}

/// Writes in order keep the entries sorted, and the mapping is that of the
/// table with the writes applied one after the other.
pub proof fn lemma_put_all(s: Seq<EntryView>, writes: Seq<EntryView>)
    requires
        sorted(s),
    ensures
        sorted(put_all(s, writes)),
        writes.len() > 0 ==> as_map(put_all(s, writes)) == as_map(
            put_all(s, writes.drop_last()),
        ).insert(writes.last().0, writes.last().1),
    decreases writes.len(),
{
    if writes.len() > 0 {
        lemma_put_all(s, writes.drop_last());
        lemma_put_entry(put_all(s, writes.drop_last()), writes.last().0, writes.last().1);
    }
}

/// The total size of the front of a sequence is no more than that of the
/// whole.
pub proof fn lemma_total_size_take(s: Seq<EntryView>, n: int)
    requires
        0 <= n <= s.len(),
    ensures
        total_size(s.take(n)) <= total_size(s),
    decreases s.len(),
{
    if n < s.len() {
        lemma_total_size_take(s.drop_last(), n);
        assert(s.drop_last().take(n) =~= s.take(n));
    } else {
        assert(s.take(n) =~= s);
    }
}

} // verus!
