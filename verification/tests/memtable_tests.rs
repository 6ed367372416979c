use lsm_tree::order::{compare, Side};
use lsm_tree::Memtable;

fn keys_of(table: &Memtable) -> Vec<Vec<u8>> {
    table.iter().iter().map(|entry| entry.0.clone()).collect()
}

#[test]
fn new_memtable_is_empty() {
    let table = Memtable::new();
    assert!(table.is_empty());
    assert_eq!(table.size(), 0);
    assert_eq!(table.total_bytes(), 0);
    assert_eq!(table.get(b"a"), None);
    assert!(table.iter().is_empty());
}

#[test]
fn default_memtable_is_empty() {
    let table = Memtable::default();
    assert!(table.is_empty());
    assert_eq!(table.size(), 0);
}

#[test]
fn put_then_get() {
    let mut table = Memtable::new();
    table.put(b"a".to_vec(), b"1".to_vec());
    table.put(b"b".to_vec(), b"2".to_vec());
    assert_eq!(table.get(b"a"), Some(&b"1"[..]));
    assert_eq!(table.get(b"b"), Some(&b"2"[..]));
    assert_eq!(table.get(b"c"), None);
    assert_eq!(table.get(b""), None);
    assert_eq!(table.size(), 2);
    assert!(!table.is_empty());
}

#[test]
fn put_overwrites_in_place() {
    let mut table = Memtable::new();
    table.put(b"a".to_vec(), b"1".to_vec());
    table.put(b"b".to_vec(), b"2".to_vec());
    table.put(b"a".to_vec(), b"long value".to_vec());
    assert_eq!(table.get(b"a"), Some(&b"long value"[..]));
    assert_eq!(table.size(), 2);
    assert_eq!(table.total_bytes(), 1 + 10 + 1 + 1);
}

#[test]
fn iter_is_in_ascending_key_order() {
    let mut table = Memtable::new();
    for key in [&b"m"[..], b"b", b"zz", b"a", b"ab", b"", b"z", b"\xff", b"\x00"] {
        table.put(key.to_vec(), b"v".to_vec());
    }
    let expected: Vec<Vec<u8>> = [&b""[..], b"\x00", b"a", b"ab", b"b", b"m", b"z", b"zz", b"\xff"]
        .iter()
        .map(|key| key.to_vec())
        .collect();
    assert_eq!(keys_of(&table), expected);
}

#[test]
fn iter_gives_keys_with_their_values() {
    let mut table = Memtable::new();
    table.put(b"b".to_vec(), b"2".to_vec());
    table.put(b"a".to_vec(), b"1".to_vec());
    let entries = table.iter();
    assert_eq!(entries.len(), 2);
    assert_eq!(entries[0], (b"a".to_vec(), b"1".to_vec()));
    assert_eq!(entries[1], (b"b".to_vec(), b"2".to_vec()));
}

#[test]
fn total_bytes_sums_keys_and_values() {
    let mut table = Memtable::new();
    table.put(b"abc".to_vec(), b"12345".to_vec());
    assert_eq!(table.total_bytes(), 8);
    table.put(b"d".to_vec(), Vec::new());
    assert_eq!(table.total_bytes(), 9);
    table.put(b"abc".to_vec(), b"1".to_vec());
    assert_eq!(table.total_bytes(), 5);
}

#[test]
fn clear_drops_all_entries() {
    let mut table = Memtable::new();
    table.put(b"a".to_vec(), b"1".to_vec());
    table.put(b"b".to_vec(), b"2".to_vec());
    table.clear();
    assert!(table.is_empty());
    assert_eq!(table.size(), 0);
    assert_eq!(table.total_bytes(), 0);
    assert_eq!(table.get(b"a"), None);
    table.put(b"c".to_vec(), b"3".to_vec());
    assert_eq!(table.get(b"c"), Some(&b"3"[..]));
}

#[test]
fn many_keys_are_all_found() {
    let mut table = Memtable::new();
    for i in (0..200u32).rev() {
        table.put(format!("key{:03}", i).into_bytes(), format!("{}", i).into_bytes());
    }
    assert_eq!(table.size(), 200);
    for i in 0..200u32 {
        let value = format!("{}", i).into_bytes();
        assert_eq!(table.get(format!("key{:03}", i).as_bytes()), Some(&value[..]));
    }
    let keys = keys_of(&table);
    for i in 1..keys.len() {
        assert!(keys[i - 1] < keys[i]);
    }
}

#[test]
fn compare_orders_byte_by_byte() {
    assert_eq!(compare(b"a", b"b"), Side::Before);
    assert_eq!(compare(b"b", b"a"), Side::After);
    assert_eq!(compare(b"abc", b"abc"), Side::Same);
    assert_eq!(compare(b"", b""), Side::Same);
    assert_eq!(compare(b"", b"a"), Side::Before);
    assert_eq!(compare(b"ab", b"abc"), Side::Before);
    assert_eq!(compare(b"abc", b"ab"), Side::After);
    assert_eq!(compare(b"\x7f", b"\x80"), Side::Before);
    assert_eq!(compare(b"a\xff", b"b"), Side::Before);
}

#[test]
fn compare_agrees_with_the_order_of_byte_vectors() {
    let keys: [&[u8]; 6] = [b"", b"a", b"ab", b"b", b"\x00\x01", b"\xff"];
    for a in keys {
        for b in keys {
            let expected = if a < b {
                Side::Before
            } else if a == b {
                Side::Same
            } else {
                Side::After
            };
            assert_eq!(compare(a, b), expected);
        }
    }
}
