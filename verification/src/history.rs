//! Sequences of operations, and what holds after every one of them.

use vstd::prelude::*;
use crate::codec::within_limit;
use crate::compaction::{law_compact_all, law_compaction_keeps_values};
use crate::disk::{run_compact_all, run_flush, run_get, run_put, Disk};
use crate::error::Error;
use crate::laws::{
    consistent, law_flush_then_get, law_fresh, law_get, law_put_oversized, law_put_then_get,
    law_reopen, lists, resolve,
};
use crate::protocol::{spec_open, Outcome, TreeView, GENERATION_LIMIT};

verus! {

/// An operation of the engine.
pub enum Op {
    Put { key: Seq<u8>, value: Seq<u8> },
    Get { key: Seq<u8> },
    Flush,
    CompactAll,
}

/// An operation, run to its end.
pub open spec fn run_op(s: TreeView, d: Disk, op: Op) -> (TreeView, Disk, Outcome) {
    match op {
        Op::Put { key, value } => run_put(s, d, key, value),
        Op::Get { key } => run_get(s, d, key),
        Op::Flush => run_flush(s, d),
        Op::CompactAll => run_compact_all(s, d),
    }
}

/// The operations of a sequence, run one after the other.
pub open spec fn run_ops(s: TreeView, d: Disk, ops: Seq<Op>) -> (TreeView, Disk)
    decreases ops.len(),
{
    if ops.len() == 0 {
        (s, d)
    } else {
        let before = run_ops(s, d, ops.drop_last());
        let after = run_op(before.0, before.1, ops.last());
        (after.0, after.1)
    }
}

/// The engine opened on an empty directory.
pub open spec fn fresh() -> TreeView {
    spec_open(Seq::empty(), Seq::empty())->Ok_0
}

/// An empty directory.
pub open spec fn empty_disk() -> Disk {
    Disk { wal: Seq::empty(), files: Map::empty() }
}

/// An operation on an engine that agrees with the files leaves them in
/// agreement, and takes one generation at most.
pub proof fn law_op(s: TreeView, d: Disk, op: Op)
    requires
        consistent(s, d),
        s.next_id < GENERATION_LIMIT,
    ensures
        consistent(run_op(s, d, op).0, run_op(s, d, op).1),
        run_op(s, d, op).0.next_id <= s.next_id + 1,
{
    match op {
        Op::Put { key, value } => {
            if within_limit(key, value) {
                law_put_then_get(s, d, key, value);
            } else {
                law_put_oversized(s, d, key, value);
            }
        },
        Op::Get { key } => {
            law_get(s, d, key);
        },
        Op::Flush => {
            law_flush_then_get(s, d, Seq::empty());
        },
        Op::CompactAll => {
            law_compact_all(s, d);
        },
    }
}

/// Whatever operations are run, the engine and the files stay in agreement,
/// as long as generations are left.
pub proof fn law_history(s: TreeView, d: Disk, ops: Seq<Op>)
    requires
        consistent(s, d),
        s.next_id + ops.len() <= GENERATION_LIMIT,
    ensures
        consistent(run_ops(s, d, ops).0, run_ops(s, d, ops).1),
        run_ops(s, d, ops).0.next_id <= s.next_id + ops.len(),
    decreases ops.len(),
{
    if ops.len() > 0 {
        law_history(s, d, ops.drop_last());
        let before = run_ops(s, d, ops.drop_last());
        law_op(before.0, before.1, ops.last());
    }
}

/// Compaction equivalence: after any sequence of operations on an engine
/// that began on an empty directory, compaction succeeds, and a lookup of
/// any key answers after it as it did before.
pub proof fn law_compaction_equivalence(ops: Seq<Op>, key: Seq<u8>)
    requires
        ops.len() < GENERATION_LIMIT,
    ensures
        ({
            let before = run_ops(fresh(), empty_disk(), ops);
            let after = run_compact_all(before.0, before.1);
            &&& after.2 == Ok::<Option<Seq<u8>>, Error>(None)
            &&& run_get(after.0, after.1, key).2 == run_get(before.0, before.1, key).2
        }),
{
    law_fresh();
    law_history(fresh(), empty_disk(), ops);
    let before = run_ops(fresh(), empty_disk(), ops);
    law_compact_all(before.0, before.1);
    law_compaction_keeps_values(before.0, before.1, key);
    let after = run_compact_all(before.0, before.1);
    law_get(before.0, before.1, key);
    law_get(after.0, after.1, key);
}

/// Durability across a restart: after any sequence of operations on an
/// engine that began on an empty directory, an engine opened anew on the
/// files answers a lookup of any key as the first did.
pub proof fn law_restart(ops: Seq<Op>, file_names: Seq<Seq<u8>>, key: Seq<u8>)
    requires
        ops.len() <= GENERATION_LIMIT,
        lists(file_names, run_ops(fresh(), empty_disk(), ops).1),
    ensures
        ({
            let before = run_ops(fresh(), empty_disk(), ops);
            let opened = spec_open(before.1.wal, file_names);
            &&& opened is Ok
            &&& opened->Ok_0.memtable == before.0.memtable
            &&& opened->Ok_0.segments == before.0.segments
            &&& run_get(opened->Ok_0, before.1, key).2 == run_get(before.0, before.1, key).2
        }),
{
    law_fresh();
    law_history(fresh(), empty_disk(), ops);
    let before = run_ops(fresh(), empty_disk(), ops);
    law_reopen(before.0, before.1, file_names);
    let opened = spec_open(before.1.wal, file_names)->Ok_0;
    assert(resolve(opened, before.1, key) == resolve(before.0, before.1, key));
    law_get(before.0, before.1, key);
    law_get(opened, before.1, key);
}

} // verus!
