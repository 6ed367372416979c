//! The write-ahead log: every accepted write as a record, in write order.

use vstd::prelude::*;
use crate::codec::{
    decode_entries, encode_entry, encode_into, entries_from, read_entry_from_header, view_entries,
    EntryView, Reader,
};
use crate::error::Error;

verus! {

/// The contents of the log file: records back to back, the oldest first.
#[derive(Debug)]
pub struct Wal {
    log: Vec<u8>,
}

impl View for Wal {
    type V = Seq<u8>;

    /// The bytes of the log.
    closed spec fn view(&self) -> Seq<u8> {
        self.log@
    }
}

impl Wal {
    /// The log that holds the given bytes: those of the log file as it was
    /// found, or none where there was no file.
    pub fn open(log: Vec<u8>) -> (wal: Self)
        ensures
            wal@ == log@,
    {
        Wal { log }
    }

    /// Puts the record of a write after the records that the log holds.
    pub fn append(&mut self, key: &[u8], value: &[u8])
        ensures
            final(self)@ == old(self)@ + encode_entry(key@, value@),
    {
        encode_into(&mut self.log, key, value);
    }

    /// The writes that the log holds, in write order. A corrupt record
    /// anywhere in the log is an error: no part of the log is then given.
    pub fn replay(&self) -> (result: Result<Vec<(Vec<u8>, Vec<u8>)>, Error>)
        ensures
            match decode_entries(self@) {
                Some(entries) => result matches Ok(records) && view_entries(records@) == entries,
                None => result == Err::<Vec<(Vec<u8>, Vec<u8>)>, Error>(Error::Corrupt),
            },
    {
        let mut reader = Reader::new(self.log.as_slice());
        let mut records: Vec<(Vec<u8>, Vec<u8>)> = Vec::new();
        proof {
            if entries_from(self@, 0) is Some {
                let all = entries_from(self@, 0)->Some_0;
                assert(view_entries(records@) + all =~= all);
            }
        }
        loop
            invariant
                reader.data() == self@,
                0 <= reader.spec_position(),
                decode_entries(self@) == match entries_from(self@, reader.spec_position()) {
                    Some(rest) => Some(view_entries(records@) + rest),
                    None => None,
                },
            decreases self@.len() - reader.spec_position(),
        {
            let ghost pos = reader.spec_position();
            let ghost done = view_entries(records@);
            match read_entry_from_header(&mut reader) {
                Ok(Some(entry)) => {
                    records.push(entry);
                    proof {
                        let next = reader.spec_position();
                        let now = view_entries(records@);
                        assert(now =~= done.push((entry.0@, entry.1@)));
                        if entries_from(self@, next) is Some {
                            let rest = entries_from(self@, next)->Some_0;
                            assert(done + (seq![(entry.0@, entry.1@)] + rest) =~= now + rest);
                        }
                    }
                },
                Ok(None) => {
                    assert(view_entries(records@) + Seq::<EntryView>::empty() =~= view_entries(
                        records@,
                    ));
                    return Ok(records);
                },
                Err(e) => {
                    return Err(e);
                },
            }
        }
    }

    /// Drops every record: the log is empty afterwards.
    pub fn purge(&mut self)
        ensures
            final(self)@ == Seq::<u8>::empty(),
    {
        self.log.clear();
    }

    /// The bytes of the log.
    pub fn as_bytes(&self) -> (bytes: &[u8])
        ensures
            bytes@ == self@,
    {
        self.log.as_slice()
    }
}

} // verus!
