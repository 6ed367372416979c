use lsm_tree::codec::encode;
use lsm_tree::naming::{make_segment_name, read_segment_name};
use lsm_tree::{Error, Memtable, SSTable, Wal};

fn entry(key: &[u8], value: &[u8]) -> (Vec<u8>, Vec<u8>) {
    (key.to_vec(), value.to_vec())
}

#[test]
fn wal_opens_on_nothing() {
    let wal = Wal::open(Vec::new());
    assert!(wal.as_bytes().is_empty());
    assert_eq!(wal.replay(), Ok(Vec::new()));
}

#[test]
fn wal_append_then_replay_in_write_order() {
    let mut wal = Wal::open(Vec::new());
    wal.append(b"b", b"2");
    wal.append(b"a", b"1");
    wal.append(b"b", b"3");
    assert_eq!(wal.replay(), Ok(vec![entry(b"b", b"2"), entry(b"a", b"1"), entry(b"b", b"3")]));
}

#[test]
fn wal_holds_records_back_to_back() {
    let mut wal = Wal::open(Vec::new());
    wal.append(b"a", b"1");
    wal.append(b"bc", b"");
    let mut expected = encode(b"a", b"1");
    expected.extend_from_slice(&encode(b"bc", b""));
    assert_eq!(wal.as_bytes(), &expected[..]);
}

#[test]
fn wal_opened_on_bytes_replays_them_and_goes_on() {
    let mut first = Wal::open(Vec::new());
    first.append(b"a", b"1");
    let mut second = Wal::open(first.as_bytes().to_vec());
    second.append(b"b", b"2");
    assert_eq!(second.replay(), Ok(vec![entry(b"a", b"1"), entry(b"b", b"2")]));
}

#[test]
fn wal_purge_empties_the_log() {
    let mut wal = Wal::open(Vec::new());
    wal.append(b"a", b"1");
    wal.purge();
    assert!(wal.as_bytes().is_empty());
    assert_eq!(wal.replay(), Ok(Vec::new()));
    wal.append(b"b", b"2");
    assert_eq!(wal.replay(), Ok(vec![entry(b"b", b"2")]));
}

#[test]
fn wal_replay_fails_on_a_torn_record() {
    let mut wal = Wal::open(Vec::new());
    wal.append(b"a", b"1");
    wal.append(b"b", b"2");
    let mut bytes = wal.as_bytes().to_vec();
    bytes.pop();
    assert_eq!(Wal::open(bytes).replay(), Err(Error::Corrupt));
}

#[test]
fn wal_replay_fails_on_a_partial_header() {
    let mut bytes = encode(b"a", b"1");
    bytes.extend_from_slice(&[1, 0]);
    assert_eq!(Wal::open(bytes).replay(), Err(Error::Corrupt));
}

#[test]
fn sstable_from_memtable_holds_entries_in_key_order() {
    let mut memtable = Memtable::new();
    memtable.put(b"b".to_vec(), b"2".to_vec());
    memtable.put(b"a".to_vec(), b"1".to_vec());
    memtable.put(b"c".to_vec(), b"3".to_vec());
    let table = SSTable::from_memtable(&memtable);
    let mut expected = encode(b"a", b"1");
    expected.extend_from_slice(&encode(b"b", b"2"));
    expected.extend_from_slice(&encode(b"c", b"3"));
    assert_eq!(table.as_bytes(), &expected[..]);
}

#[test]
fn sstable_from_empty_memtable_is_empty() {
    let table = SSTable::from_memtable(&Memtable::new());
    assert!(table.as_bytes().is_empty());
    assert_eq!(table.get(b"a"), Ok(None));
    assert!(table.iter().is_empty());
}

#[test]
fn sstable_get_finds_each_key() {
    let mut memtable = Memtable::new();
    memtable.put(b"a".to_vec(), b"1".to_vec());
    memtable.put(b"b".to_vec(), b"2".to_vec());
    let table = SSTable::from_memtable(&memtable);
    assert_eq!(table.get(b"a"), Ok(Some(b"1".to_vec())));
    assert_eq!(table.get(b"b"), Ok(Some(b"2".to_vec())));
    assert_eq!(table.get(b"c"), Ok(None));
    assert_eq!(table.get(b""), Ok(None));
}

#[test]
fn sstable_get_gives_the_first_match() {
    let mut bytes = encode(b"a", b"first");
    bytes.extend_from_slice(&encode(b"a", b"second"));
    let table = SSTable::from_bytes(bytes);
    assert_eq!(table.get(b"a"), Ok(Some(b"first".to_vec())));
}

#[test]
fn sstable_get_fails_on_corruption_before_the_key() {
    let mut bytes = encode(b"a", b"1");
    bytes.extend_from_slice(&[9, 9, 9]);
    let table = SSTable::from_bytes(bytes);
    assert_eq!(table.get(b"b"), Err(Error::Corrupt));
}

#[test]
fn sstable_get_stops_at_the_key_before_corruption() {
    let mut bytes = encode(b"a", b"1");
    bytes.extend_from_slice(&[9, 9, 9]);
    let table = SSTable::from_bytes(bytes);
    assert_eq!(table.get(b"a"), Ok(Some(b"1".to_vec())));
}

#[test]
fn sstable_iter_gives_entries_in_file_order() {
    let mut memtable = Memtable::new();
    memtable.put(b"b".to_vec(), b"2".to_vec());
    memtable.put(b"a".to_vec(), b"1".to_vec());
    let table = SSTable::from_memtable(&memtable);
    assert_eq!(table.iter(), vec![Ok(entry(b"a", b"1")), Ok(entry(b"b", b"2"))]);
}

#[test]
fn sstable_iter_ends_with_the_error() {
    let mut bytes = encode(b"a", b"1");
    bytes.extend_from_slice(&encode(b"b", b"2"));
    bytes.truncate(bytes.len() - 1);
    let table = SSTable::from_bytes(bytes);
    assert_eq!(table.iter(), vec![Ok(entry(b"a", b"1")), Err(Error::Corrupt)]);
}

#[test]
fn sstable_round_trips_through_bytes() {
    let mut memtable = Memtable::new();
    memtable.put(b"k".to_vec(), b"v".to_vec());
    let table = SSTable::from_memtable(&memtable);
    let again = SSTable::from_bytes(table.as_bytes().to_vec());
    assert_eq!(again.get(b"k"), Ok(Some(b"v".to_vec())));
    assert_eq!(again.as_bytes(), table.as_bytes());
}

#[test]
fn segment_names_are_made_from_the_generation() {
    assert_eq!(make_segment_name(0), b"sstable_0.sst".to_vec());
    assert_eq!(make_segment_name(7), b"sstable_7.sst".to_vec());
    assert_eq!(make_segment_name(10), b"sstable_10.sst".to_vec());
    assert_eq!(make_segment_name(4096), b"sstable_4096.sst".to_vec());
    assert_eq!(make_segment_name(u32::MAX), b"sstable_4294967295.sst".to_vec());
}

#[test]
fn segment_names_are_read_back() {
    for id in [0u32, 1, 9, 10, 99, 100, 255, 256, 65535, 1_000_000, u32::MAX] {
        assert_eq!(read_segment_name(&make_segment_name(id)), Some(id));
    }
}

#[test]
fn segment_names_may_have_a_sign_and_leading_zeros() {
    assert_eq!(read_segment_name(b"sstable_+5.sst"), Some(5));
    assert_eq!(read_segment_name(b"sstable_0005.sst"), Some(5));
    assert_eq!(read_segment_name(b"sstable_+000.sst"), Some(0));
    assert_eq!(read_segment_name(b"sstable_00000000004294967295.sst"), Some(u32::MAX));
}

#[test]
fn other_names_are_no_segment_names() {
    let names: [&[u8]; 18] = [
        b"",
        b"wal.log",
        b"sstable_.sst",
        b"sstable_+.sst",
        b"sstable_-1.sst",
        b"sstable_++1.sst",
        b"sstable_1+.sst",
        b"sstable_1 .sst",
        b"sstable_ 1.sst",
        b"sstable_1a.sst",
        b"sstable_1_0.sst",
        b"sstable_4294967296.sst",
        b"sstable_99999999999999999999999.sst",
        b"sstable_1.sstx",
        b"Sstable_1.sst",
        b"sstable1.sst",
        b"sstable_1.SST",
        b"sstable_",
    ];
    for name in names {
        assert_eq!(read_segment_name(name), None);
    }
    assert_eq!(read_segment_name(b".sst"), None);
    assert_eq!(read_segment_name(b"xsstable_1.sst"), None);
}
