//! The directory as a faithful driver keeps it, and the engine run against
//! it.
//!
//! Nothing here is executed. It says what the files hold after each request
//! of the engine, on a disk that does not fail, so that what the engine
//! promises across several operations can be stated and proved.

use vstd::prelude::*;
use crate::error::Error;
use crate::protocol::{
    spec_compact_all, spec_flush, spec_get, spec_put, spec_resume, Outcome, PendingView, ReplyView,
    StepView, TreeView,
};

verus! {

/// The files of the engine's directory.
pub struct Disk {
    /// The bytes of the log file.
    pub wal: Seq<u8>,
    /// The bytes of each segment file, by its name.
    pub files: Map<Seq<u8>, Seq<u8>>,
}

/// What a request does to the files, and the reply to it. Reading or
/// deleting a file that is not there fails; nothing else does.
pub open spec fn perform(d: Disk, step: StepView) -> (Disk, ReplyView) {
    match step {
        StepView::AppendWal(bytes) => (Disk { wal: d.wal + bytes, ..d }, ReplyView::Done),
        StepView::WriteSegment { name, data } => (
            Disk { files: d.files.insert(name, data), ..d },
            ReplyView::Done,
        ),
        StepView::PurgeWal => (Disk { wal: Seq::empty(), ..d }, ReplyView::Done),
        StepView::ReadSegment(name) => if d.files.contains_key(name) {
            (d, ReplyView::Segment(d.files[name]))
        } else {
            (d, ReplyView::Failed)
        },
        StepView::RemoveSegment(name) => if d.files.contains_key(name) {
            (Disk { files: d.files.remove(name), ..d }, ReplyView::Done)
        } else {
            (d, ReplyView::Failed)
        },
        StepView::Finished(_) => (d, ReplyView::Done),
    }
}

/// A bound on the number of requests that the engine still makes before the
/// operation in progress ends.
pub open spec fn rank(s: TreeView) -> nat {
    match s.pending {
        PendingView::Idle => 0,
        PendingView::Purge => 1,
        PendingView::Write { name } => 2,
        PendingView::Append { key, value } => 3,
        PendingView::Lookup { key, index } => index + 1,
        PendingView::Remove { names, index } => if index < names.len() {
            (names.len() - index) as nat
        } else {
            1
        },
        PendingView::Replace { name } => s.segments.len() + 2,
        PendingView::Gather { index, merged } => if index < s.segments.len() {
            (2 * s.segments.len() - index + 3) as nat
        } else {
            s.segments.len() + 3
        },
    }
}

/// Every operation ends: each reply brings the operation in progress nearer
/// to its end.
pub proof fn law_resume_progress(s: TreeView, reply: ReplyView)
    requires
        !s.idle(),
    ensures
        rank(spec_resume(s, reply).0) < rank(s),
{
}

/// The engine run from a step to the end of the operation: each request is
/// performed on the files and answered, until the engine is finished. The
/// result is the state of the engine, the files, and the outcome.
pub open spec fn drive(s: TreeView, d: Disk, step: StepView) -> (TreeView, Disk, Outcome)
    decreases rank(s),
{
    if step is Finished {
        (s, d, step->Finished_0)
    } else if s.idle() {
        (s, d, Err(Error::OutOfTurn))
    } else {
        let (d2, reply) = perform(d, step);
        let (s2, step2) = spec_resume(s, reply);
        drive(s2, d2, step2)
    }
}

/// A write, run to its end.
pub open spec fn run_put(s: TreeView, d: Disk, key: Seq<u8>, value: Seq<u8>) -> (
    TreeView,
    Disk,
    Outcome,
) {
    drive(spec_put(s, key, value).0, d, spec_put(s, key, value).1)
}

/// A lookup, run to its end.
pub open spec fn run_get(s: TreeView, d: Disk, key: Seq<u8>) -> (TreeView, Disk, Outcome) {
    drive(spec_get(s, key).0, d, spec_get(s, key).1)
}

/// A flush, run to its end.
pub open spec fn run_flush(s: TreeView, d: Disk) -> (TreeView, Disk, Outcome) {
    drive(spec_flush(s).0, d, spec_flush(s).1)
}

/// A compaction, run to its end.
pub open spec fn run_compact_all(s: TreeView, d: Disk) -> (TreeView, Disk, Outcome) {
    drive(spec_compact_all(s).0, d, spec_compact_all(s).1)
}

} // verus!
