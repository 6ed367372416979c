//! The in-memory sorted write buffer.

use vstd::prelude::*;
use crate::codec::{view_entries, EntryView};
use crate::order::{
    compare, key_lt, lemma_key_lt_asymmetric, lemma_key_lt_irreflexive, lemma_key_lt_transitive,
    Side,
};
use crate::table::{
    as_map, is_slot, lemma_as_map_keys, lemma_as_map_sorted, lemma_put_entry, lemma_slot_unique,
    lemma_total_size_take, put_entry, slot, sorted, total_size,
};

verus! {

/// An ordered mapping from key to value: the most recent writes, held in
/// ascending order of their keys, each key once.
#[derive(Debug)]
pub struct Memtable {
    entries: Vec<(Vec<u8>, Vec<u8>)>,
}

impl View for Memtable {
    type V = Map<Seq<u8>, Seq<u8>>;

    /// The mapping from each key to its value.
    open spec fn view(&self) -> Map<Seq<u8>, Seq<u8>> {
        as_map(self.entries())
    }
}

impl Memtable {
    /// The entries in the order in which the table holds them.
    pub closed spec fn entries(&self) -> Seq<EntryView> {
        view_entries(self.entries@)
    }

    /// Whether the table is well formed: its keys ascend strictly.
    pub open spec fn wf(&self) -> bool {
        sorted(self.entries())
    }

    /// The sum of the lengths of all keys and values.
    pub open spec fn spec_total_bytes(&self) -> nat {
        total_size(self.entries())
    }

    /// An empty table.
    pub fn new() -> (table: Self)
        ensures
            table.wf(),
            table.entries() == Seq::<EntryView>::empty(),
            table@ == Map::<Seq<u8>, Seq<u8>>::empty(),
    {
        let table = Memtable { entries: Vec::new() };
        assert(table.entries() =~= Seq::<EntryView>::empty());
        table
    }

    /// Finds by halving where `key` stands or belongs, and whether it is
    /// there.
    fn locate(&self, key: &[u8]) -> (found: (usize, bool))
        requires
            self.wf(),
        ensures
            found.0 == slot(self.entries(), key@),
            found.0 <= self.entries().len(),
            found.1 == (found.0 < self.entries().len() && self.entries()[found.0 as int].0
                == key@),
            found.1 == self@.contains_key(key@),
    {
        let ghost s = self.entries();
        let mut lo: usize = 0;
        let mut hi: usize = self.entries.len();
        while lo < hi
            invariant
                self.wf(),
                s == self.entries(),
                lo <= hi <= self.entries.len(),
                forall|i: int| 0 <= i < lo ==> key_lt(#[trigger] s[i].0, key@),
                forall|i: int| hi <= i < s.len() ==> key_lt(key@, #[trigger] s[i].0),
            decreases hi - lo,
        {
            let mid = lo + (hi - lo) / 2;
            assert(s[mid as int].0 == self.entries@[mid as int].0@);
            match compare(self.entries[mid].0.as_slice(), key) {
                Side::Before => {
                    assert forall|i: int| 0 <= i < mid + 1 implies key_lt(
                        #[trigger] s[i].0,
                        key@,
                    ) by {
                        if i < mid {
                            assert(key_lt(s[i].0, s[mid as int].0));
                            lemma_key_lt_transitive(s[i].0, s[mid as int].0, key@);
                        }
                    }
                    lo = mid + 1;
                },
                Side::Same => {
                    proof {
                        assert forall|i: int| 0 <= i < mid implies key_lt(
                            #[trigger] s[i].0,
                            key@,
                        ) by {
                            assert(key_lt(s[i].0, s[mid as int].0));
                        }
                        assert forall|i: int| mid <= i < s.len() implies !key_lt(
                            #[trigger] s[i].0,
                            key@,
                        ) by {
                            if i == mid {
                                lemma_key_lt_irreflexive(key@);
                            } else {
                                assert(key_lt(s[mid as int].0, s[i].0));
                                lemma_key_lt_asymmetric(key@, s[i].0);
                            }
                        }
                        assert(is_slot(s, key@, mid as int));
                        lemma_slot_unique(s, key@, mid as int);
                        lemma_as_map_sorted(s, mid as int);
                    }
                    return (mid, true);
                },
                Side::After => {
                    assert forall|i: int| mid <= i < s.len() implies key_lt(
                        key@,
                        #[trigger] s[i].0,
                    ) by {
                        if mid < i {
                            assert(key_lt(s[mid as int].0, s[i].0));
                            lemma_key_lt_transitive(key@, s[mid as int].0, s[i].0);
                        }
                    }
                    hi = mid;
                },
            }
        }
        proof {
            assert forall|i: int| lo <= i < s.len() implies !key_lt(#[trigger] s[i].0, key@) by {
                lemma_key_lt_asymmetric(key@, s[i].0);
            }
            assert(is_slot(s, key@, lo as int));
            lemma_slot_unique(s, key@, lo as int);
            lemma_as_map_keys(s, key@);
            if self@.contains_key(key@) {
                let i = choose|i: int| 0 <= i < s.len() && #[trigger] s[i].0 == key@;
                lemma_key_lt_irreflexive(key@);
            }
            if lo < s.len() {
                lemma_key_lt_irreflexive(key@);
            }
        }
        (lo, false)
    }

    /// Writes `value` under `key`: a new entry, or a new value in place of
    /// the one that the key had.
    pub fn put(&mut self, key: Vec<u8>, value: Vec<u8>)
        requires
            old(self).wf(),
        ensures
            final(self).wf(),
            final(self).entries() == put_entry(old(self).entries(), key@, value@),
            final(self)@ == old(self)@.insert(key@, value@),
    {
        let ghost before = self.entries();
        let found = self.locate(key.as_slice());
        proof {
            lemma_put_entry(before, key@, value@);
        }
        if found.1 {
            self.entries.set(found.0, (key, value));
            assert(self.entries() =~= before.update(found.0 as int, (key@, value@)));
        } else {
            self.entries.insert(found.0, (key, value));
            assert(self.entries() =~= before.insert(found.0 as int, (key@, value@)));
        }
    }

    /// The value that `key` has, if it has one.
    pub fn get(&self, key: &[u8]) -> (value: Option<&[u8]>)
        requires
            self.wf(),
        ensures
            match value {
                Some(v) => self@.contains_key(key@) && self@[key@] == v@,
                None => !self@.contains_key(key@),
            },
    {
        let found = self.locate(key);
        if found.1 {
            proof {
                lemma_as_map_sorted(self.entries(), found.0 as int);
            }
            Some(self.entries[found.0].1.as_slice())
        } else {
            None
        }
    }

    /// The entries in ascending order of their keys.
    pub fn iter(&self) -> (entries: &Vec<(Vec<u8>, Vec<u8>)>)
        ensures
            view_entries(entries@) == self.entries(),
    {
        &self.entries
    }

    /// The number of entries.
    pub fn size(&self) -> (count: usize)
        ensures
            count == self.entries().len(),
    {
        self.entries.len()
    }

    /// The sum of the lengths of all keys and values, or the greatest
    /// `usize` where the sum is more than that.
    pub fn total_bytes(&self) -> (total: usize)
        ensures
            total == if self.spec_total_bytes() <= usize::MAX {
                self.spec_total_bytes()
            } else {
                usize::MAX as nat
            },
    {
        let ghost s = self.entries();
        let mut total: usize = 0;
        let mut i: usize = 0;
        while i < self.entries.len()
            invariant
                s == self.entries(),
                i <= self.entries.len(),
                total == total_size(s.take(i as int)),
            decreases self.entries.len() - i,
        {
            let key_len = self.entries[i].0.len();
            let value_len = self.entries[i].1.len();
            proof {
                assert(s.take(i + 1).drop_last() =~= s.take(i as int));
                assert(s.take(i + 1).last() == s[i as int]);
                lemma_total_size_take(s, i + 1);
            }
            if key_len > usize::MAX - total || value_len > usize::MAX - total - key_len {
                return usize::MAX;
            }
            total = total + key_len + value_len;
            i += 1;
        }
        assert(s.take(i as int) =~= s);
        total
    }

    /// Whether the table holds no entry.
    pub fn is_empty(&self) -> (empty: bool)
        ensures
            empty == (self.entries().len() == 0),
    {
        self.entries.len() == 0
    }

    /// Drops all entries.
    pub fn clear(&mut self)
        ensures
            final(self).wf(),
            final(self).entries() == Seq::<EntryView>::empty(),
            final(self)@ == Map::<Seq<u8>, Seq<u8>>::empty(),
    {
        self.entries.clear();
        assert(self.entries() =~= Seq::<EntryView>::empty());
    }
}

impl Default for Memtable {
    /// An empty table.
    fn default() -> (table: Self)
        ensures
            table.wf(),
            table.entries() == Seq::<EntryView>::empty(),
    {
        Memtable::new()
    }
}

} // verus!
