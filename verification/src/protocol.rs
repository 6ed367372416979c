//! What passes between the engine and its driver, and the engine's
//! transitions.
//!
//! The engine performs no file operation. Each operation of the engine ends
//! in a [`Step`]: a request to the driver, or the outcome. The driver
//! performs the request and hands back a [`Reply`], from which the engine
//! goes on. The functions at the end of this file say, for every state and
//! every reply, what the next state and the next step are.

use vstd::prelude::*;
use crate::codec::{
    decode_entries, encode_entries, encode_entry, find_from, view_found, within_limit, EntryView,
};
use crate::error::Error;
use crate::naming::{ascending, collect, generation, next_generation, segment_name};
use crate::sstable::SSTable;
use crate::table::{lookup, put_all, put_entry, sorted, total_size};

verus! {

/// The size of the memtable, as the sum of the lengths of its keys and
/// values, above which a write flushes it.
pub const MAX_MEMTABLE_SIZE: usize = 131072;

/// The number of generations: each is less than this.
pub const GENERATION_LIMIT: u64 = 4294967296;

/// How an operation ended: for a lookup the value found, if any.
pub type Outcome = Result<Option<Seq<u8>>, Error>;

/// What the engine asks of its driver, or how the operation ended.
#[derive(Debug)]
pub enum Step {
    /// Put these bytes at the end of the log file, and make them durable.
    AppendWal(Vec<u8>),
    /// Create the segment file of this name with this content, and make it
    /// durable.
    WriteSegment { name: Vec<u8>, table: SSTable },
    /// Truncate the log file to zero length.
    PurgeWal,
    /// Read the segment file of this name.
    ReadSegment(Vec<u8>),
    /// Delete the segment file of this name.
    RemoveSegment(Vec<u8>),
    /// The operation is over.
    Finished(Result<Option<Vec<u8>>, Error>),
}

/// What the driver answers to a request.
#[derive(Debug)]
pub enum Reply {
    /// The file operation was performed.
    Done,
    /// The segment file was read: its content.
    Segment(SSTable),
    /// The file operation failed.
    Failed,
}

/// A step, as values.
pub enum StepView {
    AppendWal(Seq<u8>),
    WriteSegment { name: Seq<u8>, data: Seq<u8> },
    PurgeWal,
    ReadSegment(Seq<u8>),
    RemoveSegment(Seq<u8>),
    Finished(Outcome),
}

/// A reply, as values.
pub enum ReplyView {
    Done,
    Segment(Seq<u8>),
    Failed,
}

impl View for Step {
    type V = StepView;

    open spec fn view(&self) -> StepView {
        match self {
            Step::AppendWal(record) => StepView::AppendWal(record@),
            Step::WriteSegment { name, table } => StepView::WriteSegment {
                name: name@,
                data: table@,
            },
            Step::PurgeWal => StepView::PurgeWal,
            Step::ReadSegment(name) => StepView::ReadSegment(name@),
            Step::RemoveSegment(name) => StepView::RemoveSegment(name@),
            Step::Finished(outcome) => StepView::Finished(view_found(*outcome)),
        }
    }
}

impl View for Reply {
    type V = ReplyView;

    open spec fn view(&self) -> ReplyView {
        match self {
            Reply::Done => ReplyView::Done,
            Reply::Segment(table) => ReplyView::Segment(table@),
            Reply::Failed => ReplyView::Failed,
        }
    }
}

/// The request that the engine waits on.
pub enum PendingView {
    /// None: the engine is ready for an operation.
    Idle,
    /// A write waits for its record to be in the log.
    Append { key: Seq<u8>, value: Seq<u8> },
    /// A flush waits for its segment to be written.
    Write { name: Seq<u8> },
    /// A flush waits for the log to be purged.
    Purge,
    /// A lookup waits for the content of the segment at `index`.
    Lookup { key: Seq<u8>, index: nat },
    /// A compaction waits for the content of the segment at `index`, with
    /// the older segments merged.
    Gather { index: nat, merged: Seq<EntryView> },
    /// A compaction waits for the merged segment to be written.
    Replace { name: Seq<u8> },
    /// A compaction waits for the file at `index` of the replaced segments
    /// to be deleted.
    Remove { names: Seq<Seq<u8>>, index: nat },
}

/// The state of the engine, as values.
pub struct TreeView {
    /// The entries of the memtable, in ascending order of their keys.
    pub memtable: Seq<EntryView>,
    /// The names of the segment files, the oldest first.
    pub segments: Seq<Seq<u8>>,
    /// The generation of the next segment.
    pub next_id: nat,
    /// The request that the engine waits on.
    pub pending: PendingView,
}

impl TreeView {
    /// Whether the state is one that the engine can be in.
    pub open spec fn wf(self) -> bool {
        &&& sorted(self.memtable)
        &&& self.next_id <= GENERATION_LIMIT
        &&& ascending(self.segments)
        &&& self.fresh_from() <= self.next_id
        &&& forall|i: int|
            0 <= i < self.segments.len() ==> generation(#[trigger] self.segments[i])
                < self.fresh_from()
        &&& match self.pending {
            PendingView::Write { name } => 0 <= generation(name) < self.next_id,
            PendingView::Replace { name } => 0 <= generation(name) < self.next_id,
            PendingView::Lookup { key, index } => index < self.segments.len(),
            PendingView::Gather { index, merged } => index < self.segments.len() && sorted(merged),
            PendingView::Remove { names, index } => index < names.len(),
            _ => true,
        }
    }

    /// The generation above those of all segments: that of the segment
    /// being written, or else the next generation.
    pub open spec fn fresh_from(self) -> int {
        match self.pending {
            PendingView::Write { name } => generation(name),
            PendingView::Replace { name } => generation(name),
            _ => self.next_id as int,
        }
    }

    /// Whether the engine is ready for an operation.
    pub open spec fn idle(self) -> bool {
        self.pending is Idle
    }
}

/// The state that opening gives: the memtable holds the writes of the log,
/// applied in order; the segments are those among the file names, the oldest
/// first; the next generation is the one after the newest. A log that does
/// not decode is an error.
pub open spec fn spec_open(log: Seq<u8>, file_names: Seq<Seq<u8>>) -> Result<TreeView, Error> {
    match decode_entries(log) {
        Some(writes) => Ok(
            TreeView {
                memtable: put_all(Seq::empty(), writes),
                segments: collect(file_names),
                next_id: next_generation(collect(file_names)),
                pending: PendingView::Idle,
            },
        ),
        None => Err(Error::Corrupt),
    }
}

/// The operation ends, and the engine is ready for the next.
pub open spec fn finish(s: TreeView, outcome: Outcome) -> (TreeView, StepView) {
    (TreeView { pending: PendingView::Idle, ..s }, StepView::Finished(outcome))
}

/// A flush begins: nothing to do for an empty memtable; else the next
/// generation is taken and the memtable is to be written as its segment.
pub open spec fn begin_flush(s: TreeView) -> (TreeView, StepView) {
    if s.memtable.len() == 0 {
        finish(s, Ok(None))
    } else if s.next_id >= GENERATION_LIMIT {
        finish(s, Err(Error::Exhausted))
    } else {
        let name = segment_name(s.next_id);
        (
            TreeView { next_id: s.next_id + 1, pending: PendingView::Write { name }, ..s },
            StepView::WriteSegment { name, data: encode_entries(s.memtable) },
        )
    }
}

/// A lookup goes on to the newest of the `remaining` oldest segments, or
/// ends without a value where none remains.
pub open spec fn read_next(s: TreeView, key: Seq<u8>, remaining: nat) -> (TreeView, StepView) {
    if remaining == 0 || remaining > s.segments.len() {
        finish(s, Ok(None))
    } else {
        let index = (remaining - 1) as nat;
        (
            TreeView { pending: PendingView::Lookup { key, index }, ..s },
            StepView::ReadSegment(s.segments[index as int]),
        )
    }
}

/// A compaction goes on to the segment at `index`, or, where all have been
/// merged, takes the next generation and has the merged entries written as
/// its segment.
pub open spec fn gather_next(s: TreeView, index: nat, merged: Seq<EntryView>) -> (
    TreeView,
    StepView,
) {
    if index < s.segments.len() {
        (
            TreeView { pending: PendingView::Gather { index, merged }, ..s },
            StepView::ReadSegment(s.segments[index as int]),
        )
    } else if s.next_id >= GENERATION_LIMIT {
        finish(s, Err(Error::Exhausted))
    } else {
        let name = segment_name(s.next_id);
        (
            TreeView { next_id: s.next_id + 1, pending: PendingView::Replace { name }, ..s },
            StepView::WriteSegment { name, data: encode_entries(merged) },
        )
    }
}

/// A compaction goes on to delete the file at `index` of the replaced
/// segments, or ends where all are deleted.
pub open spec fn remove_next(s: TreeView, names: Seq<Seq<u8>>, index: nat) -> (
    TreeView,
    StepView,
) {
    if index < names.len() {
        (
            TreeView { pending: PendingView::Remove { names, index }, ..s },
            StepView::RemoveSegment(names[index as int]),
        )
    } else {
        finish(s, Ok(None))
    }
}

/// A write begins. An engine that waits on a request refuses it, and so is
/// an entry that does not fit a record, before anything is asked of the
/// driver. Else the record is to be put in the log.
pub open spec fn spec_put(s: TreeView, key: Seq<u8>, value: Seq<u8>) -> (TreeView, StepView) {
    if !s.idle() {
        (s, StepView::Finished(Err(Error::OutOfTurn)))
    } else if !within_limit(key, value) {
        (s, StepView::Finished(Err(Error::TooLarge)))
    } else {
        (
            TreeView { pending: PendingView::Append { key, value }, ..s },
            StepView::AppendWal(encode_entry(key, value)),
        )
    }
}

/// A lookup begins: the memtable answers where it holds the key; else the
/// segments are read, the newest first.
pub open spec fn spec_get(s: TreeView, key: Seq<u8>) -> (TreeView, StepView) {
    if !s.idle() {
        (s, StepView::Finished(Err(Error::OutOfTurn)))
    } else {
        match lookup(s.memtable, key) {
            Some(value) => (s, StepView::Finished(Ok(Some(value)))),
            None => read_next(s, key, s.segments.len()),
        }
    }
}

/// A flush begins.
pub open spec fn spec_flush(s: TreeView) -> (TreeView, StepView) {
    if !s.idle() {
        (s, StepView::Finished(Err(Error::OutOfTurn)))
    } else {
        begin_flush(s)
    }
}

/// A compaction begins: the segments are read, the oldest first.
pub open spec fn spec_compact_all(s: TreeView) -> (TreeView, StepView) {
    if !s.idle() {
        (s, StepView::Finished(Err(Error::OutOfTurn)))
    } else {
        gather_next(s, 0, Seq::empty())
    }
}

/// The engine goes on from the driver's reply.
///
/// A failed file operation ends the operation with [`Error::Io`]; a reply
/// that does not answer the request ends it with [`Error::OutOfTurn`].
/// Else:
/// - a write whose record is in the log is applied to the memtable, and a
///   memtable over its size is flushed;
/// - a flush whose segment is written adds it as the newest segment, clears
///   the memtable and has the log purged; with the log purged it ends;
/// - a lookup ends with the value that the segment holds for the key, and
///   goes on to the next older segment where it holds none;
/// - a compaction merges the entries of the segment, newer over older, and
///   goes on to the next newer segment; with the merged segment written it
///   makes it the only segment, and has the files of the others deleted one
///   by one.
pub open spec fn spec_resume(s: TreeView, reply: ReplyView) -> (TreeView, StepView) {
    match s.pending {
        PendingView::Idle => (s, StepView::Finished(Err(Error::OutOfTurn))),
        PendingView::Append { key, value } => match reply {
            ReplyView::Done => {
                let applied = TreeView {
                    memtable: put_entry(s.memtable, key, value),
                    pending: PendingView::Idle,
                    ..s
                };
                if total_size(applied.memtable) > MAX_MEMTABLE_SIZE {
                    begin_flush(applied)
                } else {
                    finish(applied, Ok(None))
                }
            },
            ReplyView::Failed => finish(s, Err(Error::Io)),
            ReplyView::Segment(_) => finish(s, Err(Error::OutOfTurn)),
        },
        PendingView::Write { name } => match reply {
            ReplyView::Done => (
                TreeView {
                    memtable: Seq::empty(),
                    segments: s.segments.push(name),
                    pending: PendingView::Purge,
                    ..s
                },
                StepView::PurgeWal,
            ),
            ReplyView::Failed => finish(s, Err(Error::Io)),
            ReplyView::Segment(_) => finish(s, Err(Error::OutOfTurn)),
        },
        PendingView::Purge => match reply {
            ReplyView::Done => finish(s, Ok(None)),
            ReplyView::Failed => finish(s, Err(Error::Io)),
            ReplyView::Segment(_) => finish(s, Err(Error::OutOfTurn)),
        },
        PendingView::Lookup { key, index } => match reply {
            ReplyView::Segment(data) => match find_from(data, 0, key) {
                Ok(Some(value)) => finish(s, Ok(Some(value))),
                Ok(None) => read_next(s, key, index),
                Err(e) => finish(s, Err(e)),
            },
            ReplyView::Failed => finish(s, Err(Error::Io)),
            ReplyView::Done => finish(s, Err(Error::OutOfTurn)),
        },
        PendingView::Gather { index, merged } => match reply {
            ReplyView::Segment(data) => match decode_entries(data) {
                Some(entries) => gather_next(
                    TreeView { pending: PendingView::Idle, ..s },
                    index + 1,
                    put_all(merged, entries),
                ),
                None => finish(s, Err(Error::Corrupt)),
            },
            ReplyView::Failed => finish(s, Err(Error::Io)),
            ReplyView::Done => finish(s, Err(Error::OutOfTurn)),
        },
        PendingView::Replace { name } => match reply {
            ReplyView::Done => remove_next(
                TreeView { segments: seq![name], pending: PendingView::Idle, ..s },
                s.segments,
                0,
            ),
            ReplyView::Failed => finish(s, Err(Error::Io)),
            ReplyView::Segment(_) => finish(s, Err(Error::OutOfTurn)),
        },
        PendingView::Remove { names, index } => match reply {
            ReplyView::Done => remove_next(
                TreeView { pending: PendingView::Idle, ..s },
                names,
                index + 1,
            ),
            ReplyView::Failed => finish(s, Err(Error::Io)),
            ReplyView::Segment(_) => finish(s, Err(Error::OutOfTurn)),
        },
    }
}

} // verus!
