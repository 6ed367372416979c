//! Sorted tables: the immutable segments that a memtable is written to.

use vstd::prelude::*;
use crate::codec::{
    encode_entries, encode_into, find_from, items_from, read_entry_from_header, view_entries,
    view_found, view_items, EntryView, Reader,
};
use crate::error::Error;
use crate::memtable::Memtable;
use crate::order::{compare, Side};

verus! {

/// The contents of one segment file: records back to back. A segment that
/// was made from a memtable holds its entries in ascending order of their
/// keys.
#[derive(Debug)]
pub struct SSTable {
    data: Vec<u8>,
}

impl View for SSTable {
    type V = Seq<u8>;

    /// The bytes of the segment.
    closed spec fn view(&self) -> Seq<u8> {
        self.data@
    }
}

impl SSTable {
    /// The segment that holds every entry of the memtable, in the
    /// memtable's order.
    pub fn from_memtable(memtable: &Memtable) -> (table: Self)
        ensures
            table@ == encode_entries(memtable.entries()),
    {
        let entries = memtable.iter();
        let ghost s = memtable.entries();
        let mut data: Vec<u8> = Vec::new();
        let mut i: usize = 0;
        while i < entries.len()
            invariant
                i <= entries.len(),
                s == view_entries(entries@),
                data@ == encode_entries(s.take(i as int)),
            decreases entries.len() - i,
        {
            encode_into(&mut data, entries[i].0.as_slice(), entries[i].1.as_slice());
            proof {
                assert(s.take(i + 1).drop_last() =~= s.take(i as int));
                assert(s.take(i + 1).last() == s[i as int]);
            }
            i += 1;
        }
        assert(s.take(i as int) =~= s);
        SSTable { data }
    }

    /// The segment that holds the given bytes: those of a segment file.
    pub fn from_bytes(data: Vec<u8>) -> (table: Self)
        ensures
            table@ == data@,
    {
        SSTable { data }
    }

    /// The bytes of the segment.
    pub fn as_bytes(&self) -> (bytes: &[u8])
        ensures
            bytes@ == self@,
    {
        self.data.as_slice()
    }

    /// Looks for a key by reading the records from the start: the value of
    /// the first record with this key, `None` where the segment ends without
    /// one, an error where a corrupt record comes first.
    pub fn get(&self, target_key: &[u8]) -> (result: Result<Option<Vec<u8>>, Error>)
        ensures
            view_found(result) == find_from(self@, 0, target_key@),
    {
        let mut reader = Reader::new(self.data.as_slice());
        loop
            invariant
                reader.data() == self@,
                0 <= reader.spec_position(),
                find_from(self@, 0, target_key@) == find_from(
                    self@,
                    reader.spec_position(),
                    target_key@,
                ),
            decreases self@.len() - reader.spec_position(),
        {
            match read_entry_from_header(&mut reader) {
                Ok(Some(entry)) => {
                    match compare(target_key, entry.0.as_slice()) {
                        Side::Same => {
                            return Ok(Some(entry.1));
                        },
                        _ => {},
                    }
                },
                Ok(None) => {
                    return Ok(None);
                },
                Err(e) => {
                    return Err(e);
                },
            }
        }
    }

    /// Every item of the segment in file order: one entry for each record,
    /// and after them an error where a corrupt record ends the reading.
    pub fn iter(&self) -> (items: Vec<Result<(Vec<u8>, Vec<u8>), Error>>)
        ensures
            view_items(items@) == items_from(self@, 0),
    {
        let mut reader = Reader::new(self.data.as_slice());
        let mut items: Vec<Result<(Vec<u8>, Vec<u8>), Error>> = Vec::new();
        assert(view_items(items@) + items_from(self@, 0) =~= items_from(self@, 0));
        loop
            invariant
                reader.data() == self@,
                0 <= reader.spec_position(),
                items_from(self@, 0) == view_items(items@) + items_from(
                    self@,
                    reader.spec_position(),
                ),
            decreases self@.len() - reader.spec_position(),
        {
            let ghost done = view_items(items@);
            match read_entry_from_header(&mut reader) {
                Ok(Some(entry)) => {
                    let ghost item: Result<EntryView, Error> = Ok((entry.0@, entry.1@));
                    items.push(Ok(entry));
                    proof {
                        let rest = items_from(self@, reader.spec_position());
                        assert(view_items(items@) =~= done.push(item));
                        assert(done + (seq![item] + rest) =~= view_items(items@) + rest);
                    }
                },
                Ok(None) => {
                    assert(done + Seq::<Result<EntryView, Error>>::empty() =~= done);
                    return items;
                },
                Err(e) => {
                    let ghost item: Result<EntryView, Error> = Err(e);
                    items.push(Err(e));
                    assert(view_items(items@) =~= done + seq![item]);
                    return items;
                },
            }
        }
    }
}

} // verus!
