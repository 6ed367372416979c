//! What compaction does to the segments, and that it changes the answer to
//! no lookup.

use vstd::prelude::*;
use crate::codec::{
    all_within_limit, decode_entries, encode_entries, entries_from, find_from, frame_at,
    lemma_decode_encode_entries, within_limit, EntryView, Frame,
};
use crate::disk::{drive, perform, run_compact_all, Disk};
use crate::error::Error;
use crate::laws::{
    consistent, find_in_segments, lemma_find_decoded, lemma_put_all_map, lemma_put_all_within_limit,
    resolve, segment_ok,
};
use crate::naming::{
    distinct, generation, lemma_parse_segment_name, lemma_strictly_ascending_distinct, segment_name,
};
use crate::protocol::{
    gather_next, remove_next, spec_resume, PendingView, TreeView, GENERATION_LIMIT,
};
use crate::table::{lookup, put_all, sorted};

verus! {

/// The entries of the segments from `index` on, written in order, the
/// oldest segment first, over the entries in `merged`: of the entries of a
/// key, that of the newest segment stays.
pub open spec fn merge_from(
    files: Map<Seq<u8>, Seq<u8>>,
    names: Seq<Seq<u8>>,
    index: nat,
    merged: Seq<EntryView>,
) -> Seq<EntryView>
    decreases names.len() - index,
{
    if index >= names.len() {
        merged
    } else {
        merge_from(
            files,
            names,
            index + 1,
            put_all(merged, decode_entries(files[names[index as int]])->Some_0),
        )
    }
}

/// The entries of all segments of the engine merged, newer over older.
pub open spec fn merged_segments(s: TreeView, d: Disk) -> Seq<EntryView> {
    merge_from(d.files, s.segments, 0, Seq::empty())
}

/// The names from `index` on.
pub open spec fn names_from(names: Seq<Seq<u8>>, index: nat) -> Set<Seq<u8>> {
    Set::new(|name: Seq<u8>| exists|i: int| index <= i < names.len() && #[trigger] names[i] == name)
}

/// The state of an engine at rest that has compacted its segments.
pub open spec fn compacted(s: TreeView) -> TreeView {
    TreeView {
        memtable: s.memtable,
        segments: seq![segment_name(s.next_id)],
        next_id: s.next_id + 1,
        pending: PendingView::Idle,
    }
}

/// The files after compaction: the log as it was, and one segment file, of
/// the next generation, with the merged entries.
pub open spec fn compacted_disk(s: TreeView, d: Disk) -> Disk {
    Disk {
        wal: d.wal,
        files: Map::<Seq<u8>, Seq<u8>>::empty().insert(
            segment_name(s.next_id),
            encode_entries(merged_segments(s, d)),
        ),
    }
}

/// Whether every segment from `index` on is a file as the engine writes it.
pub open spec fn segments_ok(files: Map<Seq<u8>, Seq<u8>>, names: Seq<Seq<u8>>, index: nat) -> bool {
    forall|i: int|
        index <= i < names.len() ==> files.contains_key(#[trigger] names[i]) && segment_ok(
            files[names[i]],
        )
}

/// The entries that data decodes to fit a record each.
pub proof fn lemma_decoded_within_limit(data: Seq<u8>, pos: int)
    requires
        0 <= pos,
        entries_from(data, pos) is Some,
    ensures
        all_within_limit(entries_from(data, pos)->Some_0),
    decreases data.len() - pos,
{
    let es = entries_from(data, pos)->Some_0;
    match frame_at(data, pos) {
        Frame::End => {},
        Frame::Corrupt => {},
        Frame::Entry { key, value, next } => {
            lemma_decoded_within_limit(data, next);
            let rest = entries_from(data, next)->Some_0;
            assert forall|i: int| 0 <= i < es.len() implies within_limit(
                #[trigger] es[i].0,
                es[i].1,
            ) by {
                if i > 0 {
                    assert(es[i] == rest[i - 1]);
                }
            }
        },
    }
}

/// The merged entries are sorted, and fit a record each.
pub proof fn lemma_merge_from(
    files: Map<Seq<u8>, Seq<u8>>,
    names: Seq<Seq<u8>>,
    index: nat,
    merged: Seq<EntryView>,
)
    requires
        sorted(merged),
        all_within_limit(merged),
        segments_ok(files, names, index),
    ensures
        sorted(merge_from(files, names, index, merged)),
        all_within_limit(merge_from(files, names, index, merged)),
    decreases names.len() - index,
{
    if index < names.len() {
        let data = files[names[index as int]];
        let entries = decode_entries(data)->Some_0;
        assert(segment_ok(data));
        lemma_decoded_within_limit(data, 0);
        lemma_put_all_within_limit(merged, entries);
        lemma_merge_from(files, names, index + 1, put_all(merged, entries));
    }
}

/// A search of segments asks the oldest last.
proof fn lemma_find_peel(
    files: Map<Seq<u8>, Seq<u8>>,
    names: Seq<Seq<u8>>,
    key: Seq<u8>,
    remaining: nat,
)
    requires
        1 <= remaining <= names.len(),
        segments_ok(files, names, 0),
    ensures
        find_in_segments(files, names, key, remaining) == match find_in_segments(
            files,
            names.skip(1),
            key,
            (remaining - 1) as nat,
        ) {
            Ok(Some(value)) => Ok::<Option<Seq<u8>>, Error>(Some(value)),
            _ => find_from(files[names[0]], 0, key),
        },
        find_in_segments(files, names, key, remaining) is Ok,
    decreases remaining,
{
    let top = names[remaining - 1];
    assert(segment_ok(files[top]));
    lemma_find_decoded(files[top], 0, key);
    assert(segment_ok(files[names[0]]));
    lemma_find_decoded(files[names[0]], 0, key);
    if remaining > 1 {
        assert(names.skip(1)[remaining - 2] == top);
        lemma_find_peel(files, names, key, (remaining - 1) as nat);
    }
}

/// A key has in the merged entries the value that a search of the merged
/// segments finds, the newest first, or else the value it had before.
pub proof fn lemma_merge_lookup(
    files: Map<Seq<u8>, Seq<u8>>,
    names: Seq<Seq<u8>>,
    index: nat,
    merged: Seq<EntryView>,
    key: Seq<u8>,
)
    requires
        sorted(merged),
        index <= names.len(),
        segments_ok(files, names, index),
    ensures
        find_in_segments(files, names.skip(index as int), key, (names.len() - index) as nat)
            is Ok,
        lookup(merge_from(files, names, index, merged), key) == match find_in_segments(
            files,
            names.skip(index as int),
            key,
            (names.len() - index) as nat,
        ) {
            Ok(Some(value)) => Some(value),
            _ => lookup(merged, key),
        },
    decreases names.len() - index,
{
    if index < names.len() {
        let rest = names.skip(index as int);
        let data = files[names[index as int]];
        let entries = decode_entries(data)->Some_0;
        assert(segment_ok(data));
        lemma_put_all_map(merged, entries);
        lemma_merge_lookup(files, names, index + 1, put_all(merged, entries), key);
        assert(segments_ok(files, rest, 0)) by {
            assert forall|i: int| 0 <= i < rest.len() implies files.contains_key(
                #[trigger] rest[i],
            ) && segment_ok(files[rest[i]]) by {
                assert(rest[i] == names[index + i]);
            }
        }
        lemma_find_peel(files, rest, key, (names.len() - index) as nat);
        assert(rest.skip(1) =~= names.skip((index + 1) as int));
        assert(rest[0] == names[index as int]);
        lemma_find_decoded(data, 0, key);
    }
}

/// The deletions of a compaction, performed one after the other: the files
/// of the names from `index` on are gone; nothing else changes.
proof fn lemma_drive_remove(s: TreeView, d: Disk, names: Seq<Seq<u8>>, index: nat)
    requires
        index <= names.len(),
        distinct(names),
        forall|i: int| index <= i < names.len() ==> d.files.contains_key(#[trigger] names[i]),
    ensures
        drive(remove_next(s, names, index).0, d, remove_next(s, names, index).1) == (
            TreeView { pending: PendingView::Idle, ..s },
            Disk { files: d.files.remove_keys(names_from(names, index)), ..d },
            Ok::<Option<Seq<u8>>, Error>(None),
        ),
    decreases names.len() - index,
{
    if index < names.len() {
        let (s1, step1) = remove_next(s, names, index);
        let (d1, reply1) = perform(d, step1);
        let (s2, step2) = spec_resume(s1, reply1);
        assert(drive(s1, d, step1) == drive(s2, d1, step2));
        let idle = TreeView { pending: PendingView::Idle, ..s1 };
        assert((s2, step2) == remove_next(idle, names, index + 1));
        assert forall|i: int| index + 1 <= i < names.len() implies d1.files.contains_key(
            #[trigger] names[i],
        ) by {
            assert(names[index as int] != names[i]);
        }
        lemma_drive_remove(idle, d1, names, index + 1);
        assert(d1.files.remove_keys(names_from(names, index + 1)) =~= d.files.remove_keys(
            names_from(names, index),
        )) by {
            assert forall|name: Seq<u8>|
                names_from(names, index).contains(name) <==> name == names[index as int]
                    || names_from(names, index + 1).contains(name) by {
                if names_from(names, index).contains(name) {
                    let i = choose|i: int| index <= i < names.len() && #[trigger] names[i] == name;
                    if i > index {
                        assert(names_from(names, index + 1).contains(name));
                    }
                }
                if names_from(names, index + 1).contains(name) {
                    let i = choose|i: int|
                        index + 1 <= i < names.len() && #[trigger] names[i] == name;
                    assert(names[i] == name);
                }
                assert(names[index as int] == names[index as int]);
            }
        }
    } else {
        assert(d.files.remove_keys(names_from(names, index)) =~= d.files) by {
            assert forall|name: Seq<u8>| !names_from(names, index).contains(name) by {}
        }
    }
}

/// The requests of a compaction from the segment at `index` on, performed
/// one after the other: the merged entries are written as the segment of
/// the next generation, which becomes the only segment, and the files of
/// the segments that it replaces are deleted.
proof fn lemma_drive_gather(s: TreeView, d: Disk, index: nat, merged: Seq<EntryView>)
    requires
        s.idle(),
        index <= s.segments.len(),
        s.next_id < GENERATION_LIMIT,
        segments_ok(d.files, s.segments, 0),
        distinct(s.segments),
    ensures
        drive(gather_next(s, index, merged).0, d, gather_next(s, index, merged).1) == (
            compacted(s),
            Disk {
                files: d.files.insert(
                    segment_name(s.next_id),
                    encode_entries(merge_from(d.files, s.segments, index, merged)),
                ).remove_keys(names_from(s.segments, 0)),
                ..d
            },
            Ok::<Option<Seq<u8>>, Error>(None),
        ),
    decreases s.segments.len() - index,
{
    let (s1, step1) = gather_next(s, index, merged);
    let (d1, reply1) = perform(d, step1);
    let (s2, step2) = spec_resume(s1, reply1);
    assert(drive(s1, d, step1) == drive(s2, d1, step2));
    if index < s.segments.len() {
        let data = d.files[s.segments[index as int]];
        assert(segment_ok(data));
        let entries = decode_entries(data)->Some_0;
        assert((s2, step2) == gather_next(s, index + 1, put_all(merged, entries)));
        lemma_drive_gather(s, d, index + 1, put_all(merged, entries));
    } else {
        let name = segment_name(s.next_id);
        let replaced = TreeView { segments: seq![name], pending: PendingView::Idle, ..s1 };
        assert((s2, step2) == remove_next(replaced, s.segments, 0));
        assert forall|i: int| 0 <= i < s.segments.len() implies d1.files.contains_key(
            #[trigger] s.segments[i],
        ) by {}
        lemma_drive_remove(replaced, d1, s.segments, 0);
        assert(replaced == compacted(s));
    }
}

/// Compaction merges all segments into one: the merged entries, newer over
/// older, are written as the segment of the next generation, which
/// becomes the only segment of the engine and the only segment file; the
/// files of all prior segments are removed. The memtable and the log stay
/// as they were.
pub proof fn law_compact_all(s: TreeView, d: Disk)
    requires
        consistent(s, d),
        s.next_id < GENERATION_LIMIT,
    ensures
        run_compact_all(s, d) == (
            compacted(s),
            compacted_disk(s, d),
            Ok::<Option<Seq<u8>>, Error>(None),
        ),
        consistent(compacted(s), compacted_disk(s, d)),
        compacted(s).segments.len() == 1,
        compacted_disk(s, d).files.dom() == set![segment_name(s.next_id)],
        forall|i: int|
            0 <= i < s.segments.len() ==> !compacted_disk(s, d).files.contains_key(
                #[trigger] s.segments[i],
            ),
{
    let name = segment_name(s.next_id);
    let merged = merged_segments(s, d);
    let data = encode_entries(merged);
    lemma_parse_segment_name(s.next_id);
    lemma_strictly_ascending_distinct(s.segments);
    lemma_drive_gather(s, d, 0, Seq::empty());
    lemma_merge_from(d.files, s.segments, 0, Seq::empty());
    lemma_decode_encode_entries(merged);
    assert forall|i: int| 0 <= i < s.segments.len() implies #[trigger] s.segments[i] != name by {
        assert(generation(s.segments[i]) < s.next_id);
    }
    let after = d.files.insert(name, data).remove_keys(names_from(s.segments, 0));
    assert(after =~= compacted_disk(s, d).files) by {
        assert forall|other: Seq<u8>| after.contains_key(other) <==> other == name by {
            if d.files.contains_key(other) {
                assert(s.segments.contains(other));
                let i = choose|i: int| 0 <= i < s.segments.len() && s.segments[i] == other;
                assert(names_from(s.segments, 0).contains(other));
            }
            if names_from(s.segments, 0).contains(name) {
                let i = choose|i: int| 0 <= i < s.segments.len() && #[trigger] s.segments[i] == name;
                assert(s.segments[i] != name);
            }
        }
    }
    let t = compacted(s);
    let e = compacted_disk(s, d);
    assert(e.files.dom() =~= set![name]);
    assert forall|other: Seq<u8>| #[trigger] e.files.contains_key(other) implies t.segments.contains(
        other,
    ) by {
        assert(t.segments[0] == name);
    }
}

/// Compaction equivalence: a lookup of any key answers after compaction as
/// it did before.
pub proof fn law_compaction_keeps_values(s: TreeView, d: Disk, key: Seq<u8>)
    requires
        consistent(s, d),
        s.next_id < GENERATION_LIMIT,
    ensures
        resolve(run_compact_all(s, d).0, run_compact_all(s, d).1, key) == resolve(s, d, key),
{
    law_compact_all(s, d);
    let merged = merged_segments(s, d);
    lemma_merge_from(d.files, s.segments, 0, Seq::empty());
    lemma_merge_lookup(d.files, s.segments, 0, Seq::empty(), key);
    assert(s.segments.skip(0) =~= s.segments);
    lemma_decode_encode_entries(merged);
    lemma_find_decoded(encode_entries(merged), 0, key);
    let t = compacted(s);
    let e = compacted_disk(s, d);
    assert(t.segments[0] == segment_name(s.next_id));
    assert(find_in_segments(e.files, t.segments, key, 0) == Ok::<Option<Seq<u8>>, Error>(None));
    assert(lookup(Seq::<EntryView>::empty(), key) is None);
}

} // verus!
