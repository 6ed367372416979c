use lsm_tree::codec::{encode, encode_into, read_entry_from_header, Reader, MAX_ENTRY_SIZE};
use lsm_tree::Error;

#[test]
fn encode_writes_header_then_key_then_value() {
    let record = encode(b"ab", b"xyz");
    assert_eq!(record, vec![2, 0, 0, 0, 3, 0, 0, 0, b'a', b'b', b'x', b'y', b'z']);
}

#[test]
fn encode_of_empty_entry_is_a_bare_header() {
    assert_eq!(encode(b"", b""), vec![0u8; 8]);
}

#[test]
fn encode_writes_lengths_lowest_byte_first() {
    let key = vec![7u8; 258];
    let value = vec![9u8; 65536];
    let record = encode(&key, &value);
    assert_eq!(&record[0..4], &[2, 1, 0, 0]);
    assert_eq!(&record[4..8], &[0, 0, 1, 0]);
    assert_eq!(record.len(), 8 + 258 + 65536);
    assert_eq!(&record[8..266], &key[..]);
    assert_eq!(&record[266..], &value[..]);
}

#[test]
fn encode_into_appends_to_what_is_there() {
    let mut out = vec![1u8, 2, 3];
    encode_into(&mut out, b"k", b"v");
    assert_eq!(out, vec![1, 2, 3, 1, 0, 0, 0, 1, 0, 0, 0, b'k', b'v']);
}

#[test]
fn decode_returns_what_was_encoded() {
    let record = encode(b"key", b"value");
    let mut reader = Reader::new(&record);
    let entry = read_entry_from_header(&mut reader);
    assert_eq!(entry, Ok(Some((b"key".to_vec(), b"value".to_vec()))));
    assert_eq!(reader.position(), record.len());
    assert_eq!(read_entry_from_header(&mut reader), Ok(None));
    assert_eq!(reader.position(), record.len());
}

#[test]
fn round_trip_at_the_size_limit() {
    let key = vec![0xabu8; MAX_ENTRY_SIZE];
    let value = vec![0xcdu8; MAX_ENTRY_SIZE];
    let record = encode(&key, &value);
    let mut reader = Reader::new(&record);
    assert_eq!(read_entry_from_header(&mut reader), Ok(Some((key, value))));
    assert_eq!(read_entry_from_header(&mut reader), Ok(None));
}

#[test]
fn round_trip_of_empty_key_and_value() {
    let record = encode(b"", b"");
    let mut reader = Reader::new(&record);
    assert_eq!(read_entry_from_header(&mut reader), Ok(Some((Vec::new(), Vec::new()))));
    assert_eq!(reader.position(), 8);
}

#[test]
fn records_are_read_back_to_back() {
    let mut data = encode(b"a", b"1");
    data.extend_from_slice(&encode(b"bb", b"22"));
    let mut reader = Reader::new(&data);
    assert_eq!(read_entry_from_header(&mut reader), Ok(Some((b"a".to_vec(), b"1".to_vec()))));
    assert_eq!(reader.position(), 10);
    assert_eq!(read_entry_from_header(&mut reader), Ok(Some((b"bb".to_vec(), b"22".to_vec()))));
    assert_eq!(reader.position(), 22);
    assert_eq!(read_entry_from_header(&mut reader), Ok(None));
}

#[test]
fn empty_data_is_a_clean_end() {
    let data: Vec<u8> = Vec::new();
    let mut reader = Reader::new(&data);
    assert_eq!(read_entry_from_header(&mut reader), Ok(None));
    assert_eq!(reader.position(), 0);
}

#[test]
fn partial_header_is_corrupt() {
    let data = vec![1u8, 0, 0];
    let mut reader = Reader::new(&data);
    assert_eq!(read_entry_from_header(&mut reader), Err(Error::Corrupt));
    assert_eq!(reader.position(), 0);
}

#[test]
fn header_of_seven_bytes_is_corrupt() {
    let data = vec![0u8; 7];
    let mut reader = Reader::new(&data);
    assert_eq!(read_entry_from_header(&mut reader), Err(Error::Corrupt));
}

#[test]
fn body_that_ends_early_is_corrupt() {
    let mut data = encode(b"key", b"value");
    data.pop();
    let mut reader = Reader::new(&data);
    assert_eq!(read_entry_from_header(&mut reader), Err(Error::Corrupt));
    assert_eq!(reader.position(), 0);
}

#[test]
fn over_limit_key_length_is_corrupt() {
    // The header claims a key of 65537 bytes.
    let mut data = vec![1u8, 0, 1, 0, 0, 0, 0, 0];
    data.extend_from_slice(&vec![0u8; 65537]);
    let mut reader = Reader::new(&data);
    assert_eq!(read_entry_from_header(&mut reader), Err(Error::Corrupt));
}

#[test]
fn over_limit_value_length_is_corrupt() {
    // The header claims a value of 65537 bytes.
    let mut data = vec![0u8, 0, 0, 0, 1, 0, 1, 0];
    data.extend_from_slice(&vec![0u8; 65537]);
    let mut reader = Reader::new(&data);
    assert_eq!(read_entry_from_header(&mut reader), Err(Error::Corrupt));
}

#[test]
fn huge_claimed_length_is_corrupt() {
    let data = vec![0xffu8, 0xff, 0xff, 0xff, 0, 0, 0, 0, 1, 2, 3];
    let mut reader = Reader::new(&data);
    assert_eq!(read_entry_from_header(&mut reader), Err(Error::Corrupt));
}

#[test]
fn corruption_after_a_whole_record_is_met_second() {
    let mut data = encode(b"a", b"1");
    data.extend_from_slice(&[5, 0, 0]);
    let mut reader = Reader::new(&data);
    assert_eq!(read_entry_from_header(&mut reader), Ok(Some((b"a".to_vec(), b"1".to_vec()))));
    assert_eq!(read_entry_from_header(&mut reader), Err(Error::Corrupt));
    assert_eq!(reader.position(), 10);
}

#[test]
fn error_messages() {
    assert_eq!(Error::Io.message(), "file operation failed");
    assert_eq!(Error::Corrupt.message(), "corrupt record");
    assert_eq!(Error::TooLarge.message(), "key or value too large");
    assert_eq!(Error::Exhausted.message(), "generation numbers exhausted");
    assert_eq!(Error::OutOfTurn.message(), "operation out of turn");
}
