//! What holds of the engine across operations, on a disk that does not
//! fail.

use vstd::prelude::*;
use crate::codec::{
    all_within_limit, decode_entries, encode_entries, encode_entry, entries_from, find_from,
    frame_at, lemma_decode_append, lemma_decode_encode_entries, within_limit, EntryView, Frame,
};
use crate::naming::collect;
use crate::disk::{drive, perform, run_flush, run_get, run_put, Disk};
use crate::error::Error;
use crate::order::key_lt;
use crate::naming::{
    distinct, generation, lemma_ascending_unique, lemma_collect_ascending, lemma_collect_contains,
    lemma_collect_distinct, lemma_parse_segment_name, next_generation, parse_segment_name,
    segment_name,
    strictly_ascending,
};
use crate::protocol::{
    begin_flush, read_next, spec_flush, spec_open, spec_put, spec_resume, Outcome, PendingView,
    StepView, TreeView, GENERATION_LIMIT, MAX_MEMTABLE_SIZE,
};
use crate::table::{
    as_map, lemma_as_map_keys, lemma_as_map_sorted, lemma_put_all, lemma_put_entry, lemma_slot,
    lookup, put_all, put_entry, slot, sorted, total_size,
};

verus! {

/// Whether the bytes are a segment as the engine writes it: they decode, and
/// the keys of the entries ascend strictly.
pub open spec fn segment_ok(data: Seq<u8>) -> bool {
    decode_entries(data) is Some && sorted(decode_entries(data)->Some_0)
}

/// Whether the engine, at rest, and the files agree:
/// - every entry of the memtable fits a record;
/// - the log decodes, and the memtable holds its writes, applied in order;
/// - every segment of the engine is a file, written as the engine writes
///   segments, and each segment is of a later generation than the one
///   before it;
/// - there is no other segment file.
pub open spec fn consistent(s: TreeView, d: Disk) -> bool {
    &&& s.wf()
    &&& s.idle()
    &&& all_within_limit(s.memtable)
    &&& decode_entries(d.wal) is Some
    &&& s.memtable == put_all(Seq::empty(), decode_entries(d.wal)->Some_0)
    &&& forall|i: int|
        0 <= i < s.segments.len() ==> d.files.contains_key(#[trigger] s.segments[i])
            && segment_ok(d.files[s.segments[i]])
    &&& strictly_ascending(s.segments)
    &&& forall|name: Seq<u8>| #[trigger] d.files.contains_key(name) ==> s.segments.contains(name)
}

/// What the `remaining` oldest segments answer to a lookup, the newest of
/// them asked first: the first value found, or the first error met.
pub open spec fn find_in_segments(
    files: Map<Seq<u8>, Seq<u8>>,
    names: Seq<Seq<u8>>,
    key: Seq<u8>,
    remaining: nat,
) -> Outcome
    decreases remaining,
{
    if remaining == 0 || remaining > names.len() {
        Ok(None)
    } else if !files.contains_key(names[remaining - 1]) {
        Err(Error::Io)
    } else {
        match find_from(files[names[remaining - 1]], 0, key) {
            Ok(Some(value)) => Ok(Some(value)),
            Ok(None) => find_in_segments(files, names, key, (remaining - 1) as nat),
            Err(e) => Err(e),
        }
    }
}

/// The authoritative value of a key: that of the memtable, or else that of
/// the newest segment that holds the key.
pub open spec fn resolve(s: TreeView, d: Disk, key: Seq<u8>) -> Outcome {
    match lookup(s.memtable, key) {
        Some(value) => Ok(Some(value)),
        None => find_in_segments(d.files, s.segments, key, s.segments.len()),
    }
}

/// A lookup that has come down to the `remaining` oldest segments ends with
/// what those segments answer, and changes neither the engine nor the files.
pub proof fn lemma_drive_lookup(s: TreeView, d: Disk, key: Seq<u8>, remaining: nat)
    requires
        remaining <= s.segments.len(),
    ensures
        drive(read_next(s, key, remaining).0, d, read_next(s, key, remaining).1) == (
            TreeView { pending: PendingView::Idle, ..s },
            d,
            find_in_segments(d.files, s.segments, key, remaining),
        ),
    decreases remaining,
{
    if remaining > 0 {
        let (s1, step) = read_next(s, key, remaining);
        let index = (remaining - 1) as nat;
        let (d2, reply) = perform(d, step);
        let (s2, step2) = spec_resume(s1, reply);
        assert(drive(s1, d, step) == drive(s2, d2, step2));
        if d.files.contains_key(s.segments[index as int]) {
            match find_from(d.files[s.segments[index as int]], 0, key) {
                Ok(Some(value)) => {},
                Ok(None) => {
                    lemma_drive_lookup(s1, d, key, index);
                    assert(read_next(s1, key, index) == read_next(s, key, index));
                },
                Err(e) => {},
            }
        }
    }
}

/// A lookup answers with the authoritative value of the key and changes
/// nothing: the memtable is asked first, then the segments from the newest
/// to the oldest, and the first value found is the answer.
pub proof fn law_get(s: TreeView, d: Disk, key: Seq<u8>)
    requires
        s.idle(),
    ensures
        run_get(s, d, key) == (s, d, resolve(s, d, key)),
{
    if lookup(s.memtable, key) is None {
        lemma_drive_lookup(s, d, key, s.segments.len());
    }
}

/// Every entry of a table stays within the limit when an entry within the
/// limit is written to it.
pub proof fn lemma_put_entry_within_limit(s: Seq<EntryView>, key: Seq<u8>, value: Seq<u8>)
    requires
        sorted(s),
        all_within_limit(s),
        within_limit(key, value),
    ensures
        all_within_limit(put_entry(s, key, value)),
{
    lemma_slot(s, key);
    let p = slot(s, key);
    let t = put_entry(s, key, value);
    assert forall|i: int| 0 <= i < t.len() implies within_limit(#[trigger] t[i].0, t[i].1) by {
        if p < s.len() && s[p].0 == key {
            if i != p {
                assert(t[i] == s[i]);
            }
        } else if i < p {
            assert(t[i] == s[i]);
        } else if i > p {
            assert(t[i] == s[i - 1]);
        }
    }
}

/// The state of an engine at rest that has applied a write to its memtable.
pub open spec fn written(s: TreeView, key: Seq<u8>, value: Seq<u8>) -> TreeView {
    TreeView { memtable: put_entry(s.memtable, key, value), ..s }
}

/// The files after the record of a write was put in the log.
pub open spec fn logged(d: Disk, key: Seq<u8>, value: Seq<u8>) -> Disk {
    Disk { wal: d.wal + encode_entry(key, value), ..d }
}

/// The state of an engine at rest that has flushed its memtable.
pub open spec fn flushed(s: TreeView) -> TreeView {
    TreeView {
        memtable: Seq::empty(),
        segments: s.segments.push(segment_name(s.next_id)),
        next_id: s.next_id + 1,
        pending: PendingView::Idle,
    }
}

/// The files after the memtable was flushed: a new segment file holds its
/// entries, and the log is empty.
pub open spec fn flushed_disk(s: TreeView, d: Disk) -> Disk {
    Disk {
        wal: Seq::empty(),
        files: d.files.insert(segment_name(s.next_id), encode_entries(s.memtable)),
    }
}

/// An engine and files that agree still agree after a write was logged and
/// applied.
pub proof fn lemma_written_consistent(s: TreeView, d: Disk, key: Seq<u8>, value: Seq<u8>)
    requires
        consistent(s, d),
        within_limit(key, value),
    ensures
        consistent(written(s, key, value), logged(d, key, value)),
{
    let log = decode_entries(d.wal)->Some_0;
    lemma_decode_append(d.wal, key, value);
    lemma_put_entry(s.memtable, key, value);
    lemma_put_entry_within_limit(s.memtable, key, value);
    let log2 = log.push((key, value));
    assert(log2.drop_last() =~= log);
}

/// An engine and files that agree still agree after the memtable was
/// flushed.
pub proof fn lemma_flushed_consistent(s: TreeView, d: Disk)
    requires
        consistent(s, d),
        s.next_id < GENERATION_LIMIT,
    ensures
        consistent(flushed(s), flushed_disk(s, d)),
        segment_ok(encode_entries(s.memtable)),
        generation(segment_name(s.next_id)) == s.next_id,
{
    let name = segment_name(s.next_id);
    let t = flushed(s);
    let e = flushed_disk(s, d);
    lemma_parse_segment_name(s.next_id);
    lemma_decode_encode_entries(s.memtable);
    assert(frame_at(Seq::<u8>::empty(), 0) == Frame::End);
    assert(decode_entries(e.wal) == Some(Seq::<EntryView>::empty()));
    assert forall|i: int| 0 <= i < t.segments.len() implies 0 <= generation(
        #[trigger] t.segments[i],
    ) < t.next_id by {
        if i < s.segments.len() {
            assert(t.segments[i] == s.segments[i]);
        }
    }
    assert forall|i: int, j: int|
        #![trigger t.segments[i], t.segments[j]]
        0 <= i < j < t.segments.len() implies generation(t.segments[i]) < generation(
        t.segments[j],
    ) by {
        assert(t.segments[i] == s.segments[i]);
        if j < s.segments.len() {
            assert(t.segments[j] == s.segments[j]);
            assert(generation(s.segments[i]) < generation(s.segments[j]));
        }
    }
    assert forall|i: int| 0 <= i < t.segments.len() implies e.files.contains_key(
        #[trigger] t.segments[i],
    ) && segment_ok(e.files[t.segments[i]]) by {
        if i < s.segments.len() {
            assert(t.segments[i] == s.segments[i]);
            assert(generation(s.segments[i]) < s.next_id);
        }
    }
    assert forall|other: Seq<u8>| #[trigger] e.files.contains_key(other) implies t.segments.contains(
        other,
    ) by {
        if other == name {
            assert(t.segments[s.segments.len() as int] == other);
        } else {
            assert(d.files.contains_key(other));
            let i = choose|i: int| 0 <= i < s.segments.len() && s.segments[i] == other;
            assert(t.segments[i] == other);
        }
    }
}

/// A flush of a memtable that holds entries writes them as the newest
/// segment, clears the memtable and empties the log.
pub proof fn law_flush(s: TreeView, d: Disk)
    requires
        consistent(s, d),
        s.memtable.len() > 0,
        s.next_id < GENERATION_LIMIT,
    ensures
        run_flush(s, d) == (flushed(s), flushed_disk(s, d), Ok::<Option<Seq<u8>>, Error>(None)),
        consistent(flushed(s), flushed_disk(s, d)),
{
    lemma_flushed_consistent(s, d);
    lemma_drive_flush(s, d);
}

/// The requests of a flush, performed one after the other.
proof fn lemma_drive_flush(s: TreeView, d: Disk)
    requires
        s.idle(),
        s.memtable.len() > 0,
        s.next_id < GENERATION_LIMIT,
    ensures
        drive(begin_flush(s).0, d, begin_flush(s).1) == (
            flushed(s),
            flushed_disk(s, d),
            Ok::<Option<Seq<u8>>, Error>(None),
        ),
{
    let (s1, step1) = begin_flush(s);
    let (d1, reply1) = perform(d, step1);
    let (s2, step2) = spec_resume(s1, reply1);
    let (d2, reply2) = perform(d1, step2);
    let (s3, step3) = spec_resume(s2, reply2);
    assert(drive(s3, d2, step3) == (s3, d2, Ok::<Option<Seq<u8>>, Error>(None)));
    assert(drive(s2, d1, step2) == drive(s3, d2, step3));
    assert(drive(s1, d, step1) == drive(s2, d1, step2));
    assert(s3 == flushed(s));
    assert(d2 == flushed_disk(s, d));
}

/// Flush idempotence on empty state: a flush of an empty memtable asks
/// nothing of the driver, changes nothing and succeeds.
pub proof fn law_flush_empty(s: TreeView, d: Disk)
    requires
        s.idle(),
        s.memtable.len() == 0,
    ensures
        spec_flush(s) == (s, StepView::Finished(Ok(None))),
        run_flush(s, d) == (s, d, Ok::<Option<Seq<u8>>, Error>(None)),
{
}

/// Oversized rejection: a write of a key or a value longer than the maximum
/// entry size is refused before anything is asked of the driver; the
/// memtable and the files stay as they were.
pub proof fn law_put_oversized(s: TreeView, d: Disk, key: Seq<u8>, value: Seq<u8>)
    requires
        s.idle(),
        !within_limit(key, value),
    ensures
        spec_put(s, key, value) == (s, StepView::Finished(Err(Error::TooLarge))),
        run_put(s, d, key, value) == (s, d, Err::<Option<Seq<u8>>, Error>(Error::TooLarge)),
{
}

/// A write that leaves the memtable within its size is put in the log and
/// then applied to the memtable.
pub proof fn law_put(s: TreeView, d: Disk, key: Seq<u8>, value: Seq<u8>)
    requires
        consistent(s, d),
        within_limit(key, value),
        total_size(put_entry(s.memtable, key, value)) <= MAX_MEMTABLE_SIZE,
    ensures
        run_put(s, d, key, value) == (
            written(s, key, value),
            logged(d, key, value),
            Ok::<Option<Seq<u8>>, Error>(None),
        ),
        consistent(written(s, key, value), logged(d, key, value)),
{
    lemma_written_consistent(s, d, key, value);
    let (s1, step1) = spec_put(s, key, value);
    let (d1, reply1) = perform(d, step1);
    let (s2, step2) = spec_resume(s1, reply1);
    assert(drive(s2, d1, step2) == (s2, d1, Ok::<Option<Seq<u8>>, Error>(None)));
    assert(drive(s1, d, step1) == drive(s2, d1, step2));
    assert(s2 == written(s, key, value));
}

/// Size-triggered flush: a write that brings the memtable over its size
/// flushes it without being asked: afterwards the memtable is empty, its
/// entries, the write among them, are the newest segment, and the log is
/// empty.
pub proof fn law_put_flushes(s: TreeView, d: Disk, key: Seq<u8>, value: Seq<u8>)
    requires
        consistent(s, d),
        within_limit(key, value),
        total_size(put_entry(s.memtable, key, value)) > MAX_MEMTABLE_SIZE,
        s.next_id < GENERATION_LIMIT,
    ensures
        run_put(s, d, key, value) == (
            flushed(written(s, key, value)),
            flushed_disk(written(s, key, value), logged(d, key, value)),
            Ok::<Option<Seq<u8>>, Error>(None),
        ),
        consistent(
            flushed(written(s, key, value)),
            flushed_disk(written(s, key, value), logged(d, key, value)),
        ),
        flushed(written(s, key, value)).memtable.len() == 0,
        total_size(flushed(written(s, key, value)).memtable) == 0,
{
    let w = written(s, key, value);
    let l = logged(d, key, value);
    lemma_written_consistent(s, d, key, value);
    lemma_flushed_consistent(w, l);
    lemma_drive_flush(w, l);
    let (s1, step1) = spec_put(s, key, value);
    let (d1, reply1) = perform(d, step1);
    let (s2, step2) = spec_resume(s1, reply1);
    assert(w.memtable.len() > 0) by {
        if w.memtable.len() == 0 {
            assert(total_size(w.memtable) == 0);
        }
    }
    assert(d1 == l);
    assert((s2, step2) == begin_flush(w));
    assert(drive(s1, d, step1) == drive(s2, d1, step2));
}

/// Whether the names are those of the files of a directory that holds the
/// segment files and possibly other files: no name occurs twice, and the
/// segment file names among them are those of the segment files.
pub open spec fn lists(file_names: Seq<Seq<u8>>, d: Disk) -> bool {
    &&& distinct(file_names)
    &&& forall|name: Seq<u8>|
        #![trigger d.files.contains_key(name)]
        d.files.contains_key(name) <==> file_names.contains(name) && generation(name) >= 0
}

/// Durability: an engine opened anew on the files is the engine that agreed
/// with them. Its memtable holds every write since the last flush,
/// reconstructed from the log; its segments are the same, in the same
/// order; its next generation is the one after the newest segment. A lookup
/// of any key answers as it did before.
pub proof fn law_reopen(s: TreeView, d: Disk, file_names: Seq<Seq<u8>>)
    requires
        consistent(s, d),
        lists(file_names, d),
    ensures
        spec_open(d.wal, file_names) == Ok::<TreeView, Error>(
            TreeView { next_id: next_generation(s.segments), ..s },
        ),
        next_generation(s.segments) <= s.next_id,
        consistent(TreeView { next_id: next_generation(s.segments), ..s }, d),
        forall|key: Seq<u8>|
            resolve(TreeView { next_id: next_generation(s.segments), ..s }, d, key)
                == #[trigger] resolve(s, d, key),
{
    let found = collect(file_names);
    lemma_collect_ascending(file_names);
    lemma_collect_distinct(file_names);
    assert forall|name: Seq<u8>| s.segments.contains(name) <==> found.contains(name) by {
        lemma_collect_contains(file_names, name);
        assert(generation(name) >= 0 <==> parse_segment_name(name) is Some);
        if s.segments.contains(name) {
            let i = choose|i: int| 0 <= i < s.segments.len() && s.segments[i] == name;
            assert(d.files.contains_key(s.segments[i]));
            assert(d.files.contains_key(name));
        }
        if found.contains(name) {
            assert(d.files.contains_key(name));
        }
    }
    lemma_ascending_unique(s.segments, found);
    let t = TreeView { next_id: next_generation(s.segments), ..s };
    if s.segments.len() > 0 {
        let last = s.segments.len() - 1;
        assert(generation(s.segments[last]) < s.next_id);
        assert forall|i: int| 0 <= i < s.segments.len() implies generation(
            #[trigger] s.segments[i],
        ) < t.next_id by {
            if i < last {
                assert(generation(s.segments[i]) < generation(s.segments[last]));
            }
        }
    }
}

/// The writes of a sequence, run one after the other.
pub open spec fn run_puts(s: TreeView, d: Disk, writes: Seq<EntryView>) -> (TreeView, Disk)
    decreases writes.len(),
{
    if writes.len() == 0 {
        (s, d)
    } else {
        let before = run_puts(s, d, writes.drop_last());
        let after = run_put(before.0, before.1, writes.last().0, writes.last().1);
        (after.0, after.1)
    }
}

/// Whether none of the writes, made in order to an engine with the given
/// memtable, brings the memtable over its size.
pub open spec fn no_flush(memtable: Seq<EntryView>, writes: Seq<EntryView>) -> bool {
    forall|n: int|
        0 <= n <= writes.len() ==> total_size(#[trigger] put_all(memtable, writes.take(n)))
            <= MAX_MEMTABLE_SIZE
}

/// An engine opened on an empty directory agrees with it.
pub proof fn law_fresh()
    ensures
        spec_open(Seq::empty(), Seq::empty()) is Ok,
        consistent(
            spec_open(Seq::empty(), Seq::empty())->Ok_0,
            Disk { wal: Seq::empty(), files: Map::empty() },
        ),
{
    assert(frame_at(Seq::<u8>::empty(), 0) == Frame::End);
    assert(decode_entries(Seq::<u8>::empty()) == Some(Seq::<EntryView>::empty()));
    assert(collect(Seq::<Seq<u8>>::empty()) =~= Seq::<Seq<u8>>::empty());
}

/// The entries of sorted data are found by reading it from the start: the
/// value of a key is the one that the entries hold for it.
pub proof fn lemma_find_decoded(data: Seq<u8>, pos: int, key: Seq<u8>)
    requires
        0 <= pos,
        entries_from(data, pos) is Some,
        sorted(entries_from(data, pos)->Some_0),
    ensures
        find_from(data, pos, key) == Ok::<Option<Seq<u8>>, Error>(
            lookup(entries_from(data, pos)->Some_0, key),
        ),
    decreases data.len() - pos,
{
    let es = entries_from(data, pos)->Some_0;
    match frame_at(data, pos) {
        Frame::End => {},
        Frame::Corrupt => {},
        Frame::Entry { key: k, value: v, next } => {
            let rest = entries_from(data, next)->Some_0;
            assert(es =~= seq![(k, v)] + rest);
            assert(sorted(rest)) by {
                assert forall|a: int, b: int|
                    #![trigger rest[a], rest[b]]
                    0 <= a < b < rest.len() implies key_lt(rest[a].0, rest[b].0) by {
                    assert(rest[a] == es[a + 1]);
                    assert(rest[b] == es[b + 1]);
                    assert(key_lt(es[a + 1].0, es[b + 1].0));
                }
            }
            lemma_find_decoded(data, next, key);
            if k == key {
                lemma_as_map_sorted(es, 0);
            } else {
                lemma_as_map_keys(es, key);
                lemma_as_map_keys(rest, key);
                if as_map(rest).contains_key(key) {
                    let i = choose|i: int| 0 <= i < rest.len() && #[trigger] rest[i].0 == key;
                    assert(es[i + 1] == rest[i]);
                    assert(es[i + 1].0 == key);
                    lemma_as_map_sorted(es, i + 1);
                    lemma_as_map_sorted(rest, i);
                }
                if as_map(es).contains_key(key) {
                    let i = choose|i: int| 0 <= i < es.len() && #[trigger] es[i].0 == key;
                    assert(es[i] == rest[i - 1]);
                    assert(rest[i - 1].0 == key);
                }
            }
        },
    }
}

/// Entries written in order over a table shadow it: a key has the value of
/// its last write, or else the value that the table had.
pub proof fn lemma_put_all_map(m: Seq<EntryView>, writes: Seq<EntryView>)
    requires
        sorted(m),
    ensures
        sorted(put_all(m, writes)),
        as_map(put_all(m, writes)) == as_map(m).union_prefer_right(as_map(writes)),
    decreases writes.len(),
{
    lemma_put_all(m, writes);
    if writes.len() == 0 {
        assert(as_map(m).union_prefer_right(as_map(writes)) =~= as_map(m));
    } else {
        lemma_put_all_map(m, writes.drop_last());
        assert(as_map(put_all(m, writes)) =~= as_map(m).union_prefer_right(as_map(writes)));
    }
}

/// Writes within the limit keep a table within the limit.
pub proof fn lemma_put_all_within_limit(m: Seq<EntryView>, writes: Seq<EntryView>)
    requires
        sorted(m),
        all_within_limit(m),
        all_within_limit(writes),
    ensures
        sorted(put_all(m, writes)),
        all_within_limit(put_all(m, writes)),
    decreases writes.len(),
{
    lemma_put_all(m, writes);
    if writes.len() > 0 {
        let front = writes.drop_last();
        assert(all_within_limit(front)) by {
            assert forall|i: int| 0 <= i < front.len() implies within_limit(
                #[trigger] front[i].0,
                front[i].1,
            ) by {
                assert(front[i] == writes[i]);
            }
        }
        lemma_put_all_within_limit(m, front);
        assert(within_limit(writes[writes.len() - 1].0, writes[writes.len() - 1].1));
        lemma_put_entry_within_limit(put_all(m, front), writes.last().0, writes.last().1);
    }
}

/// Durability: writes that fit a record, none of which brings the memtable
/// over its size, are all in the log and in the memtable. An engine opened
/// anew on the files has the same memtable, and answers a lookup of each
/// written key with the value of the last write to it.
pub proof fn law_durability(s: TreeView, d: Disk, writes: Seq<EntryView>, file_names: Seq<Seq<u8>>)
    requires
        consistent(s, d),
        all_within_limit(writes),
        no_flush(s.memtable, writes),
    ensures
        consistent(run_puts(s, d, writes).0, run_puts(s, d, writes).1),
        run_puts(s, d, writes).0 == (TreeView { memtable: put_all(s.memtable, writes), ..s }),
        run_puts(s, d, writes).1.files == d.files,
        spec_open(run_puts(s, d, writes).1.wal, file_names) is Ok,
        spec_open(run_puts(s, d, writes).1.wal, file_names)->Ok_0.memtable == put_all(
            s.memtable,
            writes,
        ),
        forall|i: int|
            0 <= i < writes.len() ==> resolve(
                spec_open(run_puts(s, d, writes).1.wal, file_names)->Ok_0,
                run_puts(s, d, writes).1,
                #[trigger] writes[i].0,
            ) == Ok::<Option<Seq<u8>>, Error>(Some(as_map(writes)[writes[i].0])),
    decreases writes.len(),
{
    if writes.len() == 0 {
        assert(run_puts(s, d, writes).0 == s);
    } else {
        let front = writes.drop_last();
        let last = writes.last();
        assert(all_within_limit(front)) by {
            assert forall|i: int| 0 <= i < front.len() implies within_limit(
                #[trigger] front[i].0,
                front[i].1,
            ) by {
                assert(front[i] == writes[i]);
            }
        }
        assert(no_flush(s.memtable, front)) by {
            assert forall|n: int| 0 <= n <= front.len() implies total_size(
                #[trigger] put_all(s.memtable, front.take(n)),
            ) <= MAX_MEMTABLE_SIZE by {
                assert(front.take(n) =~= writes.take(n));
            }
        }
        law_durability(s, d, front, file_names);
        let (s1, d1) = run_puts(s, d, front);
        assert(within_limit(writes[writes.len() - 1].0, writes[writes.len() - 1].1));
        assert(writes.take(writes.len() as int) =~= writes);
        assert(total_size(put_all(s.memtable, writes.take(writes.len() as int)))
            <= MAX_MEMTABLE_SIZE);
        law_put(s1, d1, last.0, last.1);
        lemma_put_all_map(s.memtable, writes);
        let opened = spec_open(run_puts(s, d, writes).1.wal, file_names)->Ok_0;
        assert forall|i: int| 0 <= i < writes.len() implies resolve(
            opened,
            run_puts(s, d, writes).1,
            #[trigger] writes[i].0,
        ) == Ok::<Option<Seq<u8>>, Error>(Some(as_map(writes)[writes[i].0])) by {
            lemma_as_map_keys(writes, writes[i].0);
        }
    }
}

/// What a search of the `remaining` oldest segments finds depends on those
/// segments and their files only.
pub proof fn lemma_find_in_segments_same(
    files: Map<Seq<u8>, Seq<u8>>,
    names: Seq<Seq<u8>>,
    files2: Map<Seq<u8>, Seq<u8>>,
    names2: Seq<Seq<u8>>,
    key: Seq<u8>,
    remaining: nat,
)
    requires
        remaining <= names.len(),
        remaining <= names2.len(),
        forall|i: int| 0 <= i < remaining ==> #[trigger] names[i] == names2[i],
        forall|i: int|
            0 <= i < remaining ==> files.contains_key(#[trigger] names[i]) && files2.contains_key(
                names[i],
            ) && files[names[i]] == files2[names[i]],
    ensures
        find_in_segments(files, names, key, remaining) == find_in_segments(
            files2,
            names2,
            key,
            remaining,
        ),
    decreases remaining,
{
    if remaining > 0 {
        assert(names[remaining - 1] == names2[remaining - 1]);
        lemma_find_in_segments_same(files, names, files2, names2, key, (remaining - 1) as nat);
    }
}

/// A flush changes the answer to no lookup: what the memtable held is found
/// in the newest segment.
pub proof fn law_flush_keeps_values(s: TreeView, d: Disk, key: Seq<u8>)
    requires
        consistent(s, d),
        s.next_id < GENERATION_LIMIT,
    ensures
        resolve(flushed(s), flushed_disk(s, d), key) == resolve(s, d, key),
{
    let t = flushed(s);
    let e = flushed_disk(s, d);
    let name = segment_name(s.next_id);
    let n = s.segments.len();
    lemma_flushed_consistent(s, d);
    lemma_decode_encode_entries(s.memtable);
    lemma_find_decoded(encode_entries(s.memtable), 0, key);
    assert(t.segments[n as int] == name);
    assert forall|i: int| 0 <= i < n implies s.segments[i] == #[trigger] t.segments[i]
        && e.files.contains_key(s.segments[i]) && e.files[s.segments[i]] == d.files[s.segments[i]] by {
        assert(generation(s.segments[i]) < s.next_id);
    }
    lemma_find_in_segments_same(d.files, s.segments, e.files, t.segments, key, n);
    assert(lookup(t.memtable, key) is None);
}

/// A write is what a lookup of its key answers afterwards.
pub proof fn law_put_then_get(s: TreeView, d: Disk, key: Seq<u8>, value: Seq<u8>)
    requires
        consistent(s, d),
        within_limit(key, value),
        s.next_id < GENERATION_LIMIT,
    ensures
        run_put(s, d, key, value).2 == Ok::<Option<Seq<u8>>, Error>(None),
        consistent(run_put(s, d, key, value).0, run_put(s, d, key, value).1),
        run_put(s, d, key, value).0.next_id <= s.next_id + 1,
        resolve(run_put(s, d, key, value).0, run_put(s, d, key, value).1, key) == Ok::<
            Option<Seq<u8>>,
            Error,
        >(Some(value)),
{
    let w = written(s, key, value);
    let l = logged(d, key, value);
    lemma_written_consistent(s, d, key, value);
    lemma_put_entry(s.memtable, key, value);
    assert(resolve(w, l, key) == Ok::<Option<Seq<u8>>, Error>(Some(value)));
    if total_size(put_entry(s.memtable, key, value)) <= MAX_MEMTABLE_SIZE {
        law_put(s, d, key, value);
    } else {
        law_put_flushes(s, d, key, value);
        law_flush_keeps_values(w, l, key);
    }
}

/// A flush succeeds while generations are left, keeps the engine and the
/// files in agreement, and changes the answer to no lookup.
pub proof fn law_flush_then_get(s: TreeView, d: Disk, key: Seq<u8>)
    requires
        consistent(s, d),
        s.next_id < GENERATION_LIMIT,
    ensures
        run_flush(s, d).2 == Ok::<Option<Seq<u8>>, Error>(None),
        consistent(run_flush(s, d).0, run_flush(s, d).1),
        run_flush(s, d).0.next_id <= s.next_id + 1,
        resolve(run_flush(s, d).0, run_flush(s, d).1, key) == resolve(s, d, key),
{
    if s.memtable.len() == 0 {
        law_flush_empty(s, d);
    } else {
        law_flush(s, d);
        law_flush_keeps_values(s, d, key);
    }
}

/// Newest-wins: after a write to a key, a flush, a second write to the key
/// and a second flush, a lookup of the key answers with the second value.
pub proof fn law_newest_wins(s: TreeView, d: Disk, key: Seq<u8>, v1: Seq<u8>, v2: Seq<u8>)
    requires
        consistent(s, d),
        within_limit(key, v1),
        within_limit(key, v2),
        s.next_id + 4 <= GENERATION_LIMIT,
    ensures
        ({
            let a = run_put(s, d, key, v1);
            let b = run_flush(a.0, a.1);
            let c = run_put(b.0, b.1, key, v2);
            let e = run_flush(c.0, c.1);
            run_get(e.0, e.1, key).2 == Ok::<Option<Seq<u8>>, Error>(Some(v2))
        }),
{
    let a = run_put(s, d, key, v1);
    law_put_then_get(s, d, key, v1);
    let b = run_flush(a.0, a.1);
    law_flush_then_get(a.0, a.1, key);
    let c = run_put(b.0, b.1, key, v2);
    law_put_then_get(b.0, b.1, key, v2);
    let e = run_flush(c.0, c.1);
    law_flush_then_get(c.0, c.1, key);
    law_get(e.0, e.1, key);
}

} // verus!
