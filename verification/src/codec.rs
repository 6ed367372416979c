//! The record format shared by the log and the segments.
//!
//! A record is an 8-byte header, the key's length and the value's length as
//! little-endian 32-bit numbers, followed by the key's bytes and the value's
//! bytes. Records stand back to back, with nothing between them and no
//! checksum.

use vstd::prelude::*;
use vstd::slice::{slice_subrange, slice_to_vec};
use crate::error::Error;

verus! {

/// The longest key and the longest value that a record may hold, in bytes.
pub const MAX_ENTRY_SIZE: usize = 65536;

/// The length of a record's header, in bytes.
pub const HEADER_SIZE: usize = 8;

/// A key and its value, as byte strings.
pub type EntryView = (Seq<u8>, Seq<u8>);

/// The entries that a vector of owned entries stands for.
pub open spec fn view_entries(v: Seq<(Vec<u8>, Vec<u8>)>) -> Seq<EntryView> {
    Seq::new(v.len(), |i: int| (v[i].0@, v[i].1@))
}

/// The items that a vector of owned items stands for.
pub open spec fn view_items(v: Seq<Result<(Vec<u8>, Vec<u8>), Error>>) -> Seq<
    Result<EntryView, Error>,
> {
    Seq::new(
        v.len(),
        |i: int|
            match v[i] {
                Ok(entry) => Ok((entry.0@, entry.1@)),
                Err(e) => Err(e),
            },
    )
}

/// The outcome of a lookup that an owned outcome stands for.
pub open spec fn view_found(found: Result<Option<Vec<u8>>, Error>) -> Result<
    Option<Seq<u8>>,
    Error,
> {
    match found {
        Ok(Some(value)) => Ok(Some(value@)),
        Ok(None) => Ok(None),
        Err(e) => Err(e),
    }
}

/// The four bytes that stand for `n` in a header, lowest byte first. Only the
/// low 32 bits of `n` are kept.
pub open spec fn le32(n: nat) -> Seq<u8> {
    seq![
        (n % 256) as u8,
        (n / 256 % 256) as u8,
        (n / 65536 % 256) as u8,
        (n / 16777216 % 256) as u8,
    ]
}

/// The number that the four bytes of `data` from index `at` stand for.
pub open spec fn le32_value(data: Seq<u8>, at: int) -> nat {
    (data[at] + data[at + 1] * 256 + data[at + 2] * 65536 + data[at + 3] * 16777216) as nat
}

/// The record of one entry: the header with the two lengths, then the key,
/// then the value.
pub open spec fn encode_entry(key: Seq<u8>, value: Seq<u8>) -> Seq<u8> {
    le32(key.len()) + le32(value.len()) + key + value
}

/// The records of a sequence of entries, back to back.
pub open spec fn encode_entries(entries: Seq<EntryView>) -> Seq<u8>
    decreases entries.len(),
{
    if entries.len() == 0 {
        Seq::empty()
    } else {
        encode_entries(entries.drop_last()) + encode_entry(entries.last().0, entries.last().1)
    }
}

/// Whether neither the key nor the value is longer than a record may hold.
pub open spec fn within_limit(key: Seq<u8>, value: Seq<u8>) -> bool {
    key.len() <= MAX_ENTRY_SIZE && value.len() <= MAX_ENTRY_SIZE
}

/// Whether every entry of the sequence fits a record.
pub open spec fn all_within_limit(entries: Seq<EntryView>) -> bool {
    forall|i: int| 0 <= i < entries.len() ==> within_limit(#[trigger] entries[i].0, entries[i].1)
}

/// What stands at a position of the data.
pub enum Frame {
    /// The position is the end of the data: no more records.
    End,
    /// A whole record, and the position after it.
    Entry { key: Seq<u8>, value: Seq<u8>, next: int },
    /// A partial header, a header that claims an over-limit length, or a body
    /// that the data ends in.
    Corrupt,
}

/// Reads the data at `pos` as a record.
pub open spec fn frame_at(data: Seq<u8>, pos: int) -> Frame {
    if pos >= data.len() {
        Frame::End
    } else if data.len() - pos < HEADER_SIZE {
        Frame::Corrupt
    } else {
        let key_len = le32_value(data, pos);
        let value_len = le32_value(data, pos + 4);
        let body = pos + HEADER_SIZE;
        if key_len > MAX_ENTRY_SIZE || value_len > MAX_ENTRY_SIZE || data.len() - body < key_len
            + value_len {
            Frame::Corrupt
        } else {
            Frame::Entry {
                key: data.subrange(body, body + key_len),
                value: data.subrange(body + key_len, body + key_len + value_len),
                next: body + key_len + value_len,
            }
        }
    }
}

/// The entries that the data holds from `pos` to its end, in order; `None`
/// where a record on the way is corrupt.
pub open spec fn entries_from(data: Seq<u8>, pos: int) -> Option<Seq<EntryView>>
    decreases data.len() - pos,
{
    match frame_at(data, pos) {
        Frame::End => Some(Seq::empty()),
        Frame::Corrupt => None,
        Frame::Entry { key, value, next } => match entries_from(data, next) {
            Some(rest) => Some(seq![(key, value)] + rest),
            None => None,
        },
    }
}

/// The entries that the data holds, in order; `None` where it is corrupt.
pub open spec fn decode_entries(data: Seq<u8>) -> Option<Seq<EntryView>> {
    entries_from(data, 0)
}

/// What a reader meets from `pos` on, one item for each record and a last
/// item for the corruption that stops it, if any.
pub open spec fn items_from(data: Seq<u8>, pos: int) -> Seq<Result<EntryView, Error>>
    decreases data.len() - pos,
{
    match frame_at(data, pos) {
        Frame::End => Seq::empty(),
        Frame::Corrupt => seq![Err(Error::Corrupt)],
        Frame::Entry { key, value, next } => seq![Ok((key, value))] + items_from(data, next),
    }
}

/// The value of the first record from `pos` on whose key is `target`:
/// `Ok(None)` where the data ends before such a record, the error where a
/// corrupt record comes first.
pub open spec fn find_from(data: Seq<u8>, pos: int, target: Seq<u8>) -> Result<
    Option<Seq<u8>>,
    Error,
>
    decreases data.len() - pos,
{
    match frame_at(data, pos) {
        Frame::End => Ok(None),
        Frame::Corrupt => Err(Error::Corrupt),
        Frame::Entry { key, value, next } => if key == target {
            Ok(Some(value))
        } else {
            find_from(data, next, target)
        },
    }
}

/// A header's four bytes read back give the number they were made from.
pub proof fn lemma_le32_round_trip(n: nat)
    requires
        n <= u32::MAX,
    ensures
        le32(n).len() == 4,
        le32_value(le32(n), 0) == n,
{
}

/// A record that stands in the data at `pos` is read back as its entry,
/// whatever stands before and after it.
pub proof fn lemma_frame_of_record(before: Seq<u8>, key: Seq<u8>, value: Seq<u8>, after: Seq<u8>)
    requires
        within_limit(key, value),
    ensures
        frame_at(before + encode_entry(key, value) + after, before.len() as int) == (Frame::Entry {
            key,
            value,
            next: before.len() + HEADER_SIZE + key.len() + value.len(),
        }),
{
    let record = encode_entry(key, value);
    let data = before + record + after;
    let pos = before.len() as int;
    lemma_le32_round_trip(key.len());
    lemma_le32_round_trip(value.len());
    assert(record.len() == HEADER_SIZE + key.len() + value.len());
    assert forall|i: int| 0 <= i < record.len() implies data[pos + i] == record[i] by {}
    assert(data[pos] == le32(key.len())[0] && data[pos + 1] == le32(key.len())[1] && data[pos + 2]
        == le32(key.len())[2] && data[pos + 3] == le32(key.len())[3]) by {
        assert(record[0] == le32(key.len())[0]);
        assert(record[1] == le32(key.len())[1]);
        assert(record[2] == le32(key.len())[2]);
        assert(record[3] == le32(key.len())[3]);
    }
    assert(data[pos + 4] == le32(value.len())[0] && data[pos + 5] == le32(value.len())[1]
        && data[pos + 6] == le32(value.len())[2] && data[pos + 7] == le32(value.len())[3]) by {
        assert(record[4] == le32(value.len())[0]);
        assert(record[5] == le32(value.len())[1]);
        assert(record[6] == le32(value.len())[2]);
        assert(record[7] == le32(value.len())[3]);
    }
    assert(le32_value(data, pos) == key.len());
    assert(le32_value(data, pos + 4) == value.len());
    let body = pos + HEADER_SIZE;
    assert(data.subrange(body, body + key.len()) =~= key) by {
        assert forall|i: int| 0 <= i < key.len() implies data[body + i] == key[i] by {
            assert(record[HEADER_SIZE + i] == key[i]);
        }
    }
    assert(data.subrange(body + key.len(), body + key.len() + value.len()) =~= value) by {
        assert forall|i: int| 0 <= i < value.len() implies data[body + key.len() + i]
            == value[i] by {
            assert(record[HEADER_SIZE + key.len() + i] == value[i]);
        }
    }
}

/// Encoding then decoding yields the same pair exactly: the record of an
/// entry that fits is read back as that entry and nothing else.
pub proof fn law_round_trip(key: Seq<u8>, value: Seq<u8>)
    requires
        within_limit(key, value),
    ensures
        frame_at(encode_entry(key, value), 0) == (Frame::Entry {
            key,
            value,
            next: encode_entry(key, value).len() as int,
        }),
        decode_entries(encode_entry(key, value)) == Some(seq![(key, value)]),
{
    let record = encode_entry(key, value);
    lemma_frame_of_record(Seq::empty(), key, value, Seq::empty());
    assert(Seq::<u8>::empty() + record + Seq::<u8>::empty() =~= record);
    assert(record.len() == HEADER_SIZE + key.len() + value.len());
    assert(frame_at(record, record.len() as int) == Frame::End);
    assert(entries_from(record, record.len() as int) == Some(Seq::<EntryView>::empty()));
    assert(seq![(key, value)] + Seq::<EntryView>::empty() =~= seq![(key, value)]);
}

/// What is read at a position within the data does not change when more
/// data is put after a whole record.
proof fn lemma_frame_stable(data: Seq<u8>, more: Seq<u8>, pos: int)
    requires
        0 <= pos,
        frame_at(data, pos) is Entry,
    ensures
        frame_at(data + more, pos) == frame_at(data, pos),
{
    let longer = data + more;
    assert forall|i: int| 0 <= i < data.len() implies longer[i] == data[i] by {}
    let key_len = le32_value(data, pos);
    let value_len = le32_value(data, pos + 4);
    let body = pos + HEADER_SIZE;
    assert(le32_value(longer, pos) == key_len);
    assert(le32_value(longer, pos + 4) == value_len);
    assert(longer.subrange(body, body + key_len) =~= data.subrange(body, body + key_len));
    assert(longer.subrange(body + key_len, body + key_len + value_len) =~= data.subrange(
        body + key_len,
        body + key_len + value_len,
    ));
}

proof fn lemma_append_from(data: Seq<u8>, key: Seq<u8>, value: Seq<u8>, pos: int)
    requires
        0 <= pos <= data.len(),
        within_limit(key, value),
        entries_from(data, pos) is Some,
    ensures
        entries_from(data + encode_entry(key, value), pos) == Some(
            entries_from(data, pos)->Some_0.push((key, value)),
        ),
    decreases data.len() - pos,
{
    let record = encode_entry(key, value);
    let longer = data + record;
    if pos == data.len() {
        lemma_frame_of_record(data, key, value, Seq::empty());
        assert(data + record + Seq::<u8>::empty() =~= longer);
        assert(record.len() == HEADER_SIZE + key.len() + value.len());
        assert(frame_at(longer, longer.len() as int) == Frame::End);
        assert(entries_from(longer, longer.len() as int) == Some(Seq::<EntryView>::empty()));
        assert(seq![(key, value)] + Seq::<EntryView>::empty() =~= Seq::<EntryView>::empty().push(
            (key, value),
        ));
    } else {
        lemma_frame_stable(data, record, pos);
        let next = frame_at(data, pos)->next;
        lemma_append_from(data, key, value, next);
        let first = (frame_at(data, pos)->key, frame_at(data, pos)->value);
        let rest = entries_from(data, next)->Some_0;
        assert(seq![first] + rest.push((key, value)) =~= (seq![first] + rest).push((key, value)));
    }
}

/// A record put after data that decodes adds its entry after the entries of
/// that data.
pub proof fn lemma_decode_append(data: Seq<u8>, key: Seq<u8>, value: Seq<u8>)
    requires
        within_limit(key, value),
        decode_entries(data) is Some,
    ensures
        decode_entries(data + encode_entry(key, value)) == Some(
            decode_entries(data)->Some_0.push((key, value)),
        ),
{
    lemma_append_from(data, key, value, 0);
}

/// The records of entries that fit decode to those entries.
pub proof fn lemma_decode_encode_entries(entries: Seq<EntryView>)
    requires
        all_within_limit(entries),
    ensures
        decode_entries(encode_entries(entries)) == Some(entries),
    decreases entries.len(),
{
    if entries.len() == 0 {
        assert(frame_at(Seq::<u8>::empty(), 0) == Frame::End);
        assert(entries =~= Seq::empty());
    } else {
        let front = entries.drop_last();
        let last = entries.last();
        assert(all_within_limit(front)) by {
            assert forall|i: int| 0 <= i < front.len() implies within_limit(
                #[trigger] front[i].0,
                front[i].1,
            ) by {
                assert(front[i] == entries[i]);
            }
        }
        lemma_decode_encode_entries(front);
        assert(within_limit(entries[entries.len() - 1].0, entries[entries.len() - 1].1));
        lemma_decode_append(encode_entries(front), last.0, last.1);
        assert(front.push(last) =~= entries);
    }
}

/// The items that a reader meets are the entries that the data holds, and
/// after them the error where the data is corrupt.
pub proof fn lemma_items_entries(data: Seq<u8>, pos: int)
    requires
        0 <= pos,
    ensures
        match entries_from(data, pos) {
            Some(entries) => items_from(data, pos) == Seq::new(
                entries.len(),
                |i: int| Ok::<EntryView, Error>(entries[i]),
            ),
            None => {
                let items = items_from(data, pos);
                &&& items.len() > 0
                &&& items.last() == Err::<EntryView, Error>(Error::Corrupt)
                &&& forall|i: int| 0 <= i < items.len() - 1 ==> (#[trigger] items[i]) is Ok
            },
        },
    decreases data.len() - pos,
{
    match frame_at(data, pos) {
        Frame::End => {
            assert(items_from(data, pos) =~= Seq::new(
                0,
                |i: int| Ok::<EntryView, Error>(Seq::<EntryView>::empty()[i]),
            ));
        },
        Frame::Corrupt => {},
        Frame::Entry { key, value, next } => {
            lemma_items_entries(data, next);
            let rest = items_from(data, next);
            let items = items_from(data, pos);
            match entries_from(data, next) {
                Some(tail) => {
                    let entries = seq![(key, value)] + tail;
                    assert(items =~= Seq::new(
                        entries.len(),
                        |i: int| Ok::<EntryView, Error>(entries[i]),
                    ));
                },
                None => {
                    assert(items.last() == rest.last());
                    assert forall|i: int| 0 <= i < items.len() - 1 implies (
                    #[trigger] items[i]) is Ok by {
                        if i > 0 {
                            assert(items[i] == rest[i - 1]);
                        }
                    }
                },
            }
        },
    }
}

/// Appends the four header bytes of a length.
fn push_le32(out: &mut Vec<u8>, n: usize)
    ensures
        final(out)@ == old(out)@ + le32(n as nat),
{
    out.push((n % 256) as u8);
    out.push(((n / 256) % 256) as u8);
    out.push(((n / 65536) % 256) as u8);
    out.push(((n / 16777216) % 256) as u8);
    assert(out@ =~= old(out)@ + le32(n as nat));
}

/// Appends a copy of the bytes.
fn push_bytes(out: &mut Vec<u8>, bytes: &[u8])
    ensures
        final(out)@ == old(out)@ + bytes@,
{
    out.extend_from_slice(bytes);
    assert(out@ =~= old(out)@ + bytes@);
}

/// Appends the record of an entry to `out`.
pub fn encode_into(out: &mut Vec<u8>, key: &[u8], value: &[u8])
    ensures
        final(out)@ == old(out)@ + encode_entry(key@, value@),
{
    push_le32(out, key.len());
    push_le32(out, value.len());
    push_bytes(out, key);
    push_bytes(out, value);
    assert(out@ =~= old(out)@ + encode_entry(key@, value@));
}

/// The record of an entry.
pub fn encode(key: &[u8], value: &[u8]) -> (record: Vec<u8>)
    ensures
        record@ == encode_entry(key@, value@),
{
    let mut record: Vec<u8> = Vec::new();
    encode_into(&mut record, key, value);
    assert(record@ =~= encode_entry(key@, value@));
    record
}

/// A cursor over data that holds records back to back.
pub struct Reader<'a> {
    data: &'a [u8],
    pos: usize,
}

impl<'a> Reader<'a> {
    /// The data that the reader goes over.
    pub closed spec fn data(&self) -> Seq<u8> {
        self.data@
    }

    /// The index of the byte that the reader reads next.
    pub closed spec fn spec_position(&self) -> int {
        self.pos as int
    }

    /// A reader at the start of the data.
    pub fn new(data: &'a [u8]) -> (reader: Self)
        ensures
            reader.data() == data@,
            reader.spec_position() == 0,
    {
        Reader { data, pos: 0 }
    }

    /// The index of the byte that the reader reads next.
    pub fn position(&self) -> (pos: usize)
        ensures
            pos == self.spec_position(),
    {
        self.pos
    }

    /// The number that the four bytes from `at` stand for.
    fn read_le32(&self, at: usize) -> (n: usize)
        requires
            at + 4 <= self.data().len(),
        ensures
            n == le32_value(self.data(), at as int),
    {
        let b0: u32 = self.data[at] as u32;
        let b1: u32 = self.data[at + 1] as u32;
        let b2: u32 = self.data[at + 2] as u32;
        let b3: u32 = self.data[at + 3] as u32;
        (b0 + b1 * 256 + b2 * 65536 + b3 * 16777216) as usize
    }
}

/// Reads the record at the reader's position and moves the reader past it.
///
/// At the end of the data the result is `Ok(None)`. A partial header, a
/// header that claims an over-limit length and a body that the data ends in
/// are corruption; the reader then stays where it was.
pub fn read_entry_from_header(reader: &mut Reader) -> (result: Result<
    Option<(Vec<u8>, Vec<u8>)>,
    Error,
>)
    ensures
        final(reader).data() == old(reader).data(),
        match frame_at(old(reader).data(), old(reader).spec_position()) {
            Frame::End => result == Ok::<Option<(Vec<u8>, Vec<u8>)>, Error>(None)
                && final(reader).spec_position() == old(reader).spec_position(),
            Frame::Corrupt => result == Err::<Option<(Vec<u8>, Vec<u8>)>, Error>(Error::Corrupt)
                && final(reader).spec_position() == old(reader).spec_position(),
            Frame::Entry { key, value, next } => {
                &&& result matches Ok(Some(entry))
                &&& entry.0@ == key
                &&& entry.1@ == value
                &&& final(reader).spec_position() == next
            },
        },
{
    let data = reader.data;
    let pos = reader.pos;
    if pos >= data.len() {
        return Ok(None);
    }
    if data.len() - pos < HEADER_SIZE {
        return Err(Error::Corrupt);
    }
    let key_len = reader.read_le32(pos);
    let value_len = reader.read_le32(pos + 4);
    let body = pos + HEADER_SIZE;
    if key_len > MAX_ENTRY_SIZE || value_len > MAX_ENTRY_SIZE || data.len() - body < key_len
        + value_len {
        return Err(Error::Corrupt);
    }
    let key = slice_to_vec(slice_subrange(data, body, body + key_len));
    let value = slice_to_vec(slice_subrange(data, body + key_len, body + key_len + value_len));
    reader.pos = body + key_len + value_len;
    Ok(Some((key, value)))
}

} // verus!
