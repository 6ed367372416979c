//! The engine: writes, lookups, flushes and compaction over a memtable and
//! a list of segments.

use vstd::prelude::*;
use vstd::slice::slice_to_vec;
use crate::codec::{
    decode_entries, encode, items_from, lemma_items_entries, view_entries, view_items, EntryView,
    MAX_ENTRY_SIZE,
};
use crate::error::Error;
use crate::memtable::Memtable;
use crate::naming::{
    ascending, collect, generation, lemma_insert_ascending, lemma_parse_segment_name,
    lemma_place_unique, make_segment_name, read_segment_name, view_names,
};
use crate::protocol::{
    begin_flush, gather_next, read_next, remove_next, spec_compact_all, spec_flush, spec_get,
    spec_open, spec_put, spec_resume, PendingView, Reply, Step, TreeView, GENERATION_LIMIT,
    MAX_MEMTABLE_SIZE,
};
use crate::sstable::SSTable;
use crate::table::put_all;
use crate::wal::Wal;

verus! {

/// The request that the engine waits on, with what it needs to go on.
#[derive(Debug)]
pub enum Pending {
    /// None: the engine is ready for an operation.
    Idle,
    /// A write waits for its record to be in the log.
    Append { key: Vec<u8>, value: Vec<u8> },
    /// A flush waits for its segment to be written.
    Write { name: Vec<u8> },
    /// A flush waits for the log to be purged.
    Purge,
    /// A lookup waits for the content of the segment at `index`.
    Lookup { key: Vec<u8>, index: usize },
    /// A compaction waits for the content of the segment at `index`, with
    /// the older segments merged.
    Gather { index: usize, merged: Memtable },
    /// A compaction waits for the merged segment to be written.
    Replace { name: Vec<u8> },
    /// A compaction waits for the file at `index` of the replaced segments
    /// to be deleted.
    Remove { names: Vec<Vec<u8>>, index: usize },
}

impl View for Pending {
    type V = PendingView;

    open spec fn view(&self) -> PendingView {
        match self {
            Pending::Idle => PendingView::Idle,
            Pending::Append { key, value } => PendingView::Append { key: key@, value: value@ },
            Pending::Write { name } => PendingView::Write { name: name@ },
            Pending::Purge => PendingView::Purge,
            Pending::Lookup { key, index } => PendingView::Lookup {
                key: key@,
                index: *index as nat,
            },
            Pending::Gather { index, merged } => PendingView::Gather {
                index: *index as nat,
                merged: merged.entries(),
            },
            Pending::Replace { name } => PendingView::Replace { name: name@ },
            Pending::Remove { names, index } => PendingView::Remove {
                names: view_names(names@),
                index: *index as nat,
            },
        }
    }
}

/// A log-structured merge tree: the memtable with the most recent writes
/// and the names of the segment files, the oldest first.
#[derive(Debug)]
pub struct LsmTree {
    memtable: Memtable,
    sstables: Vec<Vec<u8>>,
    next_sstable_id: u64,
    pending: Pending,
}

impl View for LsmTree {
    type V = TreeView;

    closed spec fn view(&self) -> TreeView {
        TreeView {
            memtable: self.memtable.entries(),
            segments: view_names(self.sstables@),
            next_id: self.next_sstable_id as nat,
            pending: self.pending@,
        }
    }
}

/// Merges the entries of a segment into `merged`, in file order.
fn absorb(merged: &mut Memtable, table: &SSTable) -> (result: Result<(), Error>)
    requires
        old(merged).wf(),
    ensures
        final(merged).wf(),
        match decode_entries(table@) {
            Some(entries) => result is Ok && final(merged).entries() == put_all(
                old(merged).entries(),
                entries,
            ),
            None => result == Err::<(), Error>(Error::Corrupt),
        },
{
    let items = table.iter();
    let ghost all = items_from(table@, 0);
    proof {
        lemma_items_entries(table@, 0);
    }
    let mut i: usize = 0;
    while i < items.len()
        invariant
            i <= items.len(),
            merged.wf(),
            view_items(items@) == all,
            forall|j: int| 0 <= j < i ==> (#[trigger] all[j]) is Ok,
            merged.entries() == put_all(
                old(merged).entries(),
                Seq::new(i as nat, |j: int| all[j]->Ok_0),
            ),
            match decode_entries(table@) {
                Some(entries) => all == Seq::new(
                    entries.len(),
                    |i: int| Ok::<EntryView, Error>(entries[i]),
                ),
                None => {
                    &&& all.len() > 0
                    &&& all.last() == Err::<EntryView, Error>(Error::Corrupt)
                    &&& forall|i: int| 0 <= i < all.len() - 1 ==> (#[trigger] all[i]) is Ok
                },
            },
        decreases items.len() - i,
    {
        assert(view_items(items@)[i as int] == all[i as int]);
        match &items[i] {
            Ok(entry) => {
                let key = slice_to_vec(entry.0.as_slice());
                let value = slice_to_vec(entry.1.as_slice());
                merged.put(key, value);
                proof {
                    let before = Seq::new(i as nat, |j: int| all[j]->Ok_0);
                    let now = Seq::new((i + 1) as nat, |j: int| all[j]->Ok_0);
                    assert(now.drop_last() =~= before);
                    assert(now.last() == (entry.0@, entry.1@));
                }
            },
            Err(e) => {
                return Err(*e);
            },
        }
        i += 1;
    }
    proof {
        let done = Seq::new(i as nat, |j: int| all[j]->Ok_0);
        if decode_entries(table@) is Some {
            assert(done =~= decode_entries(table@)->Some_0);
        } else {
            assert(all[all.len() - 1] is Ok);
        }
    }
    Ok(())
}

impl LsmTree {
    /// Whether the engine is in a state that it can be in.
    pub open spec fn wf(&self) -> bool {
        self@.wf()
    }

    /// Opens the engine on what was found in its directory: the log, and
    /// the names of the files.
    ///
    /// The memtable gets the writes of the log, in order. The segments are
    /// the files with a segment file name, the oldest generation first. The
    /// next generation is the one after the newest found.
    pub fn open(wal: &Wal, file_names: &Vec<Vec<u8>>) -> (result: Result<LsmTree, Error>)
        ensures
            match spec_open(wal@, view_names(file_names@)) {
                Ok(state) => result matches Ok(tree) && tree@ == state && tree.wf(),
                Err(e) => result matches Err(x) && x == e,
            },
    {
        let records = match wal.replay() {
            Ok(records) => records,
            Err(e) => {
                return Err(e);
            },
        };
        let ghost writes = view_entries(records@);
        let mut memtable = Memtable::new();
        let mut i: usize = 0;
        assert(writes.take(0) =~= Seq::<EntryView>::empty());
        while i < records.len()
            invariant
                i <= records.len(),
                writes == view_entries(records@),
                memtable.wf(),
                memtable.entries() == put_all(Seq::empty(), writes.take(i as int)),
            decreases records.len() - i,
        {
            let key = slice_to_vec(records[i].0.as_slice());
            let value = slice_to_vec(records[i].1.as_slice());
            memtable.put(key, value);
            proof {
                assert(writes.take(i + 1).drop_last() =~= writes.take(i as int));
                assert(writes.take(i + 1).last() == (key@, value@));
            }
            i += 1;
        }
        assert(writes.take(i as int) =~= writes);

        let ghost names = view_names(file_names@);
        let mut sstables: Vec<Vec<u8>> = Vec::new();
        let mut ids: Vec<u32> = Vec::new();
        let mut j: usize = 0;
        assert(names.take(0) =~= Seq::<Seq<u8>>::empty());
        assert(view_names(sstables@) =~= Seq::<Seq<u8>>::empty());
        while j < file_names.len()
            invariant
                j <= file_names.len(),
                names == view_names(file_names@),
                view_names(sstables@) == collect(names.take(j as int)),
                ascending(view_names(sstables@)),
                ids@.len() == sstables@.len(),
                forall|k: int| 0 <= k < ids@.len() ==> #[trigger] ids@[k] == generation(sstables@[k]@),
            decreases file_names.len() - j,
        {
            let name = &file_names[j];
            let ghost before = view_names(sstables@);
            proof {
                assert(names.take(j + 1).drop_last() =~= names.take(j as int));
                assert(names.take(j + 1).last() == name@);
            }
            match read_segment_name(name.as_slice()) {
                Some(id) => {
                    let mut p: usize = ids.len();
                    while p > 0 && ids[p - 1] > id
                        invariant
                            p <= ids@.len(),
                            ids@.len() == sstables@.len(),
                            before == view_names(sstables@),
                            forall|k: int|
                                0 <= k < ids@.len() ==> #[trigger] ids@[k] == generation(
                                    sstables@[k]@,
                                ),
                            forall|k: int| p <= k < before.len() ==> generation(#[trigger] before[k]) > id,
                        decreases p,
                    {
                        p -= 1;
                        assert forall|k: int| p <= k < before.len() implies generation(
                            #[trigger] before[k],
                        ) > id by {
                            if k == p {
                                assert(ids@[k] == generation(sstables@[k]@));
                            }
                        }
                    }
                    proof {
                        assert forall|k: int| 0 <= k < p implies generation(#[trigger] before[k])
                            <= id by {
                            assert(generation(before[k]) <= generation(before[p - 1]));
                            assert(ids@[p - 1] == generation(sstables@[p - 1]@));
                        }
                        lemma_place_unique(before, id as int, p as int);
                        lemma_insert_ascending(before, name@);
                    }
                    sstables.insert(p, slice_to_vec(name.as_slice()));
                    ids.insert(p, id);
                    proof {
                        assert(view_names(sstables@) =~= before.insert(p as int, name@));
                        assert forall|k: int| 0 <= k < ids@.len() implies #[trigger] ids@[k]
                            == generation(sstables@[k]@) by {
                            if k < p {
                                assert(sstables@[k]@ == before[k]);
                            } else if k > p {
                                assert(sstables@[k]@ == before[k - 1]);
                            }
                        }
                    }
                },
                None => {},
            }
            j += 1;
        }
        assert(names.take(j as int) =~= names);
        let next_sstable_id: u64 = if ids.len() == 0 {
            0
        } else {
            ids[ids.len() - 1] as u64 + 1
        };
        let tree = LsmTree { memtable, sstables, next_sstable_id, pending: Pending::Idle };
        proof {
            let segments = view_names(tree.sstables@);
            if segments.len() > 0 {
                assert(ids@[ids@.len() - 1] == generation(tree.sstables@[ids@.len() - 1]@));
                assert(segments.last() == tree.sstables@[ids@.len() - 1]@);
            }
            assert forall|k: int| 0 <= k < segments.len() implies generation(
                #[trigger] segments[k],
            ) < tree@.next_id by {
                if k < segments.len() - 1 {
                    assert(generation(segments[k]) <= generation(segments[segments.len() - 1]));
                }
            }
        }
        Ok(tree)
    }

    /// Whether the engine is ready for an operation.
    pub fn is_idle(&self) -> (idle: bool)
        ensures
            idle == self@.idle(),
    {
        match self.pending {
            Pending::Idle => true,
            _ => false,
        }
    }

    /// The memtable.
    pub fn memtable(&self) -> (memtable: &Memtable)
        ensures
            memtable.entries() == self@.memtable,
    {
        &self.memtable
    }

    /// The names of the segment files, the oldest first.
    pub fn sstables(&self) -> (names: &Vec<Vec<u8>>)
        ensures
            view_names(names@) == self@.segments,
    {
        &self.sstables
    }

    /// The generation of the next segment.
    pub fn next_sstable_id(&self) -> (id: u64)
        ensures
            id == self@.next_id,
    {
        self.next_sstable_id
    }

    /// Begins a flush of an engine that waits on nothing.
    fn begin_flush(&mut self) -> (step: Step)
        requires
            old(self).wf(),
            old(self)@.idle(),
        ensures
            final(self).wf(),
            final(self)@ == begin_flush(old(self)@).0,
            step@ == begin_flush(old(self)@).1,
    {
        if self.memtable.is_empty() {
            return Step::Finished(Ok(None));
        }
        if self.next_sstable_id >= GENERATION_LIMIT {
            return Step::Finished(Err(Error::Exhausted));
        }
        let id = self.next_sstable_id as u32;
        let name = make_segment_name(id);
        let table = SSTable::from_memtable(&self.memtable);
        proof {
            lemma_parse_segment_name(id as nat);
        }
        self.next_sstable_id = self.next_sstable_id + 1;
        self.pending = Pending::Write { name: slice_to_vec(name.as_slice()) };
        Step::WriteSegment { name, table }
    }

    /// Goes on with a lookup to the newest of the `remaining` oldest
    /// segments.
    fn read_next(&mut self, key: Vec<u8>, remaining: usize) -> (step: Step)
        requires
            old(self).wf(),
            old(self)@.idle(),
            remaining <= old(self)@.segments.len(),
        ensures
            final(self).wf(),
            final(self)@ == read_next(old(self)@, key@, remaining as nat).0,
            step@ == read_next(old(self)@, key@, remaining as nat).1,
    {
        if remaining == 0 {
            return Step::Finished(Ok(None));
        }
        let index = remaining - 1;
        let name = slice_to_vec(self.sstables[index].as_slice());
        self.pending = Pending::Lookup { key, index };
        Step::ReadSegment(name)
    }

    /// Goes on with a compaction to the segment at `index`, or to writing
    /// the merged segment.
    fn gather_next(&mut self, index: usize, merged: Memtable) -> (step: Step)
        requires
            old(self).wf(),
            old(self)@.idle(),
            merged.wf(),
        ensures
            final(self).wf(),
            final(self)@ == gather_next(old(self)@, index as nat, merged.entries()).0,
            step@ == gather_next(old(self)@, index as nat, merged.entries()).1,
    {
        if index < self.sstables.len() {
            let name = slice_to_vec(self.sstables[index].as_slice());
            self.pending = Pending::Gather { index, merged };
            return Step::ReadSegment(name);
        }
        if self.next_sstable_id >= GENERATION_LIMIT {
            return Step::Finished(Err(Error::Exhausted));
        }
        let id = self.next_sstable_id as u32;
        let name = make_segment_name(id);
        let table = SSTable::from_memtable(&merged);
        proof {
            lemma_parse_segment_name(id as nat);
        }
        self.next_sstable_id = self.next_sstable_id + 1;
        self.pending = Pending::Replace { name: slice_to_vec(name.as_slice()) };
        Step::WriteSegment { name, table }
    }

    /// Goes on with a compaction to deleting the file at `index` of the
    /// replaced segments.
    fn remove_next(&mut self, names: Vec<Vec<u8>>, index: usize) -> (step: Step)
        requires
            old(self).wf(),
            old(self)@.idle(),
        ensures
            final(self).wf(),
            final(self)@ == remove_next(old(self)@, view_names(names@), index as nat).0,
            step@ == remove_next(old(self)@, view_names(names@), index as nat).1,
    {
        if index < names.len() {
            let name = slice_to_vec(names[index].as_slice());
            self.pending = Pending::Remove { names, index };
            return Step::RemoveSegment(name);
        }
        Step::Finished(Ok(None))
    }

    /// Begins a write of `value` under `key`.
    ///
    /// A key or a value longer than the maximum entry size is refused before
    /// anything is asked of the driver. Else the driver is asked to put the
    /// record in the log; the memtable takes the write when the driver has
    /// done so.
    pub fn put(&mut self, key: Vec<u8>, value: Vec<u8>) -> (step: Step)
        requires
            old(self).wf(),
        ensures
            final(self).wf(),
            final(self)@ == spec_put(old(self)@, key@, value@).0,
            step@ == spec_put(old(self)@, key@, value@).1,
    {
        if !self.is_idle() {
            return Step::Finished(Err(Error::OutOfTurn));
        }
        if key.len() > MAX_ENTRY_SIZE || value.len() > MAX_ENTRY_SIZE {
            return Step::Finished(Err(Error::TooLarge));
        }
        let record = encode(key.as_slice(), value.as_slice());
        self.pending = Pending::Append { key, value };
        Step::AppendWal(record)
    }

    /// Begins a lookup of `key`: the memtable first, then the segments from
    /// the newest to the oldest. The first value found is the answer.
    pub fn get(&mut self, key: &[u8]) -> (step: Step)
        requires
            old(self).wf(),
        ensures
            final(self).wf(),
            final(self)@ == spec_get(old(self)@, key@).0,
            step@ == spec_get(old(self)@, key@).1,
    {
        if !self.is_idle() {
            return Step::Finished(Err(Error::OutOfTurn));
        }
        match self.memtable.get(key) {
            Some(value) => {
                return Step::Finished(Ok(Some(slice_to_vec(value))));
            },
            None => {},
        }
        let remaining = self.sstables.len();
        self.read_next(slice_to_vec(key), remaining)
    }

    /// Begins a flush: the memtable is written as a new segment, then
    /// cleared, and the log is purged. Nothing is done for an empty
    /// memtable.
    pub fn flush(&mut self) -> (step: Step)
        requires
            old(self).wf(),
        ensures
            final(self).wf(),
            final(self)@ == spec_flush(old(self)@).0,
            step@ == spec_flush(old(self)@).1,
    {
        if !self.is_idle() {
            return Step::Finished(Err(Error::OutOfTurn));
        }
        self.begin_flush()
    }

    /// Begins a compaction: all segments are merged, newer entries over
    /// older, into one new segment, which replaces them.
    pub fn compact_all(&mut self) -> (step: Step)
        requires
            old(self).wf(),
        ensures
            final(self).wf(),
            final(self)@ == spec_compact_all(old(self)@).0,
            step@ == spec_compact_all(old(self)@).1,
    {
        if !self.is_idle() {
            return Step::Finished(Err(Error::OutOfTurn));
        }
        self.gather_next(0, Memtable::new())
    }

    /// Goes on from the driver's reply to the request that the engine waits
    /// on.
    pub fn resume(&mut self, reply: Reply) -> (step: Step)
        requires
            old(self).wf(),
        ensures
            final(self).wf(),
            final(self)@ == spec_resume(old(self)@, reply@).0,
            step@ == spec_resume(old(self)@, reply@).1,
    {
        let mut pending = Pending::Idle;
        std::mem::swap(&mut pending, &mut self.pending);
        assert(pending@ == old(self)@.pending);
        match pending {
            Pending::Idle => Step::Finished(Err(Error::OutOfTurn)),
            Pending::Append { key, value } => match reply {
                Reply::Done => {
                    self.memtable.put(key, value);
                    if self.memtable.total_bytes() > MAX_MEMTABLE_SIZE {
                        self.begin_flush()
                    } else {
                        Step::Finished(Ok(None))
                    }
                },
                Reply::Failed => Step::Finished(Err(Error::Io)),
                Reply::Segment(_) => Step::Finished(Err(Error::OutOfTurn)),
            },
            Pending::Write { name } => match reply {
                Reply::Done => {
                    let ghost before = view_names(self.sstables@);
                    self.sstables.push(name);
                    self.memtable.clear();
                    self.pending = Pending::Purge;
                    proof {
                        let now = view_names(self.sstables@);
                        assert(now =~= before.push(name@));
                        assert forall|i: int, j: int|
                            #![trigger now[i], now[j]]
                            0 <= i < j < now.len() implies generation(now[i]) <= generation(
                            now[j],
                        ) by {
                            if j < before.len() {
                                assert(generation(before[i]) <= generation(before[j]));
                            } else {
                                assert(generation(before[i]) < generation(name@));
                            }
                        }
                    }
                    Step::PurgeWal
                },
                Reply::Failed => Step::Finished(Err(Error::Io)),
                Reply::Segment(_) => Step::Finished(Err(Error::OutOfTurn)),
            },
            Pending::Purge => match reply {
                Reply::Done => Step::Finished(Ok(None)),
                Reply::Failed => Step::Finished(Err(Error::Io)),
                Reply::Segment(_) => Step::Finished(Err(Error::OutOfTurn)),
            },
            Pending::Lookup { key, index } => match reply {
                Reply::Segment(table) => match table.get(key.as_slice()) {
                    Ok(Some(value)) => Step::Finished(Ok(Some(value))),
                    Ok(None) => self.read_next(key, index),
                    Err(e) => Step::Finished(Err(e)),
                },
                Reply::Failed => Step::Finished(Err(Error::Io)),
                Reply::Done => Step::Finished(Err(Error::OutOfTurn)),
            },
            Pending::Gather { index, merged } => match reply {
                Reply::Segment(table) => {
                    let mut merged = merged;
                    assert(index < self.sstables.len());
                    match absorb(&mut merged, &table) {
                        Ok(()) => self.gather_next(index + 1, merged),
                        Err(e) => Step::Finished(Err(e)),
                    }
                },
                Reply::Failed => Step::Finished(Err(Error::Io)),
                Reply::Done => Step::Finished(Err(Error::OutOfTurn)),
            },
            Pending::Replace { name } => match reply {
                Reply::Done => {
                    let mut replaced: Vec<Vec<u8>> = Vec::new();
                    std::mem::swap(&mut replaced, &mut self.sstables);
                    self.sstables.push(name);
                    assert(view_names(self.sstables@) =~= seq![name@]);
                    self.remove_next(replaced, 0)
                },
                Reply::Failed => Step::Finished(Err(Error::Io)),
                Reply::Segment(_) => Step::Finished(Err(Error::OutOfTurn)),
            },
            Pending::Remove { names, index } => match reply {
                Reply::Done => {
                    assert(index < view_names(names@).len() == names.len());
                    self.remove_next(names, index + 1)
                },
                Reply::Failed => Step::Finished(Err(Error::Io)),
                Reply::Segment(_) => Step::Finished(Err(Error::OutOfTurn)),
            },
        }
    }
}

} // verus!
