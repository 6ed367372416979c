use lsm_tree::codec::encode;
use lsm_tree::{Error, LsmTree, Reply, SSTable, Step, Wal};

/// A directory in memory, which performs the requests of the engine.
struct Disk {
    wal: Vec<u8>,
    files: Vec<(Vec<u8>, Vec<u8>)>,
    /// The number of requests that succeed before one fails, if any does.
    fail_after: Option<usize>,
    /// What was asked, in order.
    asked: Vec<String>,
}

impl Disk {
    fn new() -> Disk {
        Disk { wal: Vec::new(), files: Vec::new(), fail_after: None, asked: Vec::new() }
    }

    fn file(&self, name: &[u8]) -> Option<&Vec<u8>> {
        self.files.iter().find(|file| file.0 == name).map(|file| &file.1)
    }

    fn file_names(&self) -> Vec<Vec<u8>> {
        let mut names: Vec<Vec<u8>> = self.files.iter().map(|file| file.0.clone()).collect();
        names.push(b"wal.log".to_vec());
        names
    }

    fn segment_count(&self) -> usize {
        self.files.len()
    }

    fn open(&self) -> Result<LsmTree, Error> {
        LsmTree::open(&Wal::open(self.wal.clone()), &self.file_names())
    }

    fn perform(&mut self, step: Step) -> Reply {
        let what = match &step {
            Step::AppendWal(_) => "append".to_string(),
            Step::WriteSegment { name, .. } => format!("write {}", String::from_utf8_lossy(name)),
            Step::PurgeWal => "purge".to_string(),
            Step::ReadSegment(name) => format!("read {}", String::from_utf8_lossy(name)),
            Step::RemoveSegment(name) => format!("remove {}", String::from_utf8_lossy(name)),
            Step::Finished(_) => unreachable!(),
        };
        self.asked.push(what);
        match self.fail_after {
            Some(0) => {
                self.fail_after = None;
                return Reply::Failed;
            }
            Some(left) => self.fail_after = Some(left - 1),
            None => {}
        }
        match step {
            Step::AppendWal(bytes) => {
                self.wal.extend_from_slice(&bytes);
                Reply::Done
            }
            Step::WriteSegment { name, table } => {
                self.files.retain(|file| file.0 != name);
                self.files.push((name, table.as_bytes().to_vec()));
                Reply::Done
            }
            Step::PurgeWal => {
                self.wal.clear();
                Reply::Done
            }
            Step::ReadSegment(name) => match self.file(&name) {
                Some(bytes) => Reply::Segment(SSTable::from_bytes(bytes.clone())),
                None => Reply::Failed,
            },
            Step::RemoveSegment(name) => {
                let before = self.files.len();
                self.files.retain(|file| file.0 != name);
                if self.files.len() < before {
                    Reply::Done
                } else {
                    Reply::Failed
                }
            }
            Step::Finished(_) => unreachable!(),
        }
    }

    fn run(&mut self, tree: &mut LsmTree, first: Step) -> Result<Option<Vec<u8>>, Error> {
        let mut step = first;
        loop {
            match step {
                Step::Finished(outcome) => return outcome,
                request => {
                    let reply = self.perform(request);
                    step = tree.resume(reply);
                }
            }
        }
    }

    fn put(&mut self, tree: &mut LsmTree, key: &[u8], value: &[u8]) -> Result<(), Error> {
        let step = tree.put(key.to_vec(), value.to_vec());
        self.run(tree, step).map(|_| ())
    }

    fn get(&mut self, tree: &mut LsmTree, key: &[u8]) -> Result<Option<Vec<u8>>, Error> {
        let step = tree.get(key);
        self.run(tree, step)
    }

    fn flush(&mut self, tree: &mut LsmTree) -> Result<(), Error> {
        let step = tree.flush();
        self.run(tree, step).map(|_| ())
    }

    fn compact_all(&mut self, tree: &mut LsmTree) -> Result<(), Error> {
        let step = tree.compact_all();
        self.run(tree, step).map(|_| ())
    }
}

fn some(value: &[u8]) -> Result<Option<Vec<u8>>, Error> {
    Ok(Some(value.to_vec()))
}

fn names(list: &[&[u8]]) -> Vec<Vec<u8>> {
    list.iter().map(|name| name.to_vec()).collect()
}

#[test]
fn open_on_an_empty_directory() {
    let disk = Disk::new();
    let tree = disk.open().unwrap();
    assert!(tree.is_idle());
    assert!(tree.memtable().is_empty());
    assert!(tree.sstables().is_empty());
    assert_eq!(tree.next_sstable_id(), 0);
}

#[test]
fn end_to_end() {
    let mut disk = Disk::new();
    let mut tree = disk.open().unwrap();
    assert_eq!(disk.put(&mut tree, b"a", b"1"), Ok(()));
    assert_eq!(disk.put(&mut tree, b"b", b"2"), Ok(()));
    assert_eq!(disk.get(&mut tree, b"a"), some(b"1"));
    assert_eq!(disk.flush(&mut tree), Ok(()));
    assert_eq!(disk.put(&mut tree, b"a", b"9"), Ok(()));
    assert_eq!(disk.get(&mut tree, b"a"), some(b"9"));
    assert_eq!(disk.get(&mut tree, b"b"), some(b"2"));
    assert_eq!(disk.compact_all(&mut tree), Ok(()));
    assert_eq!(disk.get(&mut tree, b"a"), some(b"9"));
    assert_eq!(disk.get(&mut tree, b"b"), some(b"2"));
    assert_eq!(disk.segment_count(), 1);
    assert_eq!(tree.sstables().len(), 1);
}

#[test]
fn writes_survive_a_restart_before_any_flush() {
    let mut disk = Disk::new();
    let mut tree = disk.open().unwrap();
    disk.put(&mut tree, b"a", b"1").unwrap();
    disk.put(&mut tree, b"b", b"2").unwrap();
    disk.put(&mut tree, b"a", b"3").unwrap();
    drop(tree);
    assert_eq!(disk.segment_count(), 0);
    let mut again = disk.open().unwrap();
    assert_eq!(again.memtable().size(), 2);
    assert_eq!(disk.get(&mut again, b"a"), some(b"3"));
    assert_eq!(disk.get(&mut again, b"b"), some(b"2"));
    assert_eq!(disk.get(&mut again, b"c"), Ok(None));
}

#[test]
fn writes_survive_a_restart_after_a_flush() {
    let mut disk = Disk::new();
    let mut tree = disk.open().unwrap();
    disk.put(&mut tree, b"a", b"1").unwrap();
    disk.flush(&mut tree).unwrap();
    disk.put(&mut tree, b"b", b"2").unwrap();
    let mut again = disk.open().unwrap();
    assert_eq!(again.sstables(), &names(&[b"sstable_0.sst"]));
    assert_eq!(again.next_sstable_id(), 1);
    assert_eq!(disk.get(&mut again, b"a"), some(b"1"));
    assert_eq!(disk.get(&mut again, b"b"), some(b"2"));
}

#[test]
fn newest_value_wins_across_segments() {
    let mut disk = Disk::new();
    let mut tree = disk.open().unwrap();
    disk.put(&mut tree, b"k", b"v1").unwrap();
    disk.flush(&mut tree).unwrap();
    disk.put(&mut tree, b"k", b"v2").unwrap();
    disk.flush(&mut tree).unwrap();
    assert_eq!(disk.segment_count(), 2);
    assert!(tree.memtable().is_empty());
    assert_eq!(disk.get(&mut tree, b"k"), some(b"v2"));
}

#[test]
fn get_asks_the_newest_segment_first_and_stops_at_a_hit() {
    let mut disk = Disk::new();
    let mut tree = disk.open().unwrap();
    disk.put(&mut tree, b"old", b"1").unwrap();
    disk.flush(&mut tree).unwrap();
    disk.put(&mut tree, b"mid", b"2").unwrap();
    disk.flush(&mut tree).unwrap();
    disk.put(&mut tree, b"new", b"3").unwrap();
    disk.flush(&mut tree).unwrap();
    disk.asked.clear();
    assert_eq!(disk.get(&mut tree, b"mid"), some(b"2"));
    assert_eq!(disk.asked, vec!["read sstable_2.sst", "read sstable_1.sst"]);
    disk.asked.clear();
    assert_eq!(disk.get(&mut tree, b"none"), Ok(None));
    assert_eq!(
        disk.asked,
        vec!["read sstable_2.sst", "read sstable_1.sst", "read sstable_0.sst"]
    );
}

#[test]
fn get_from_the_memtable_asks_nothing() {
    let mut disk = Disk::new();
    let mut tree = disk.open().unwrap();
    disk.put(&mut tree, b"a", b"1").unwrap();
    disk.flush(&mut tree).unwrap();
    disk.put(&mut tree, b"a", b"2").unwrap();
    disk.asked.clear();
    let step = tree.get(b"a");
    assert!(matches!(step, Step::Finished(Ok(Some(ref value))) if value == b"2"));
    assert!(tree.is_idle());
}

#[test]
fn flush_of_an_empty_memtable_does_nothing() {
    let mut disk = Disk::new();
    let mut tree = disk.open().unwrap();
    let step = tree.flush();
    assert!(matches!(step, Step::Finished(Ok(None))));
    assert!(tree.is_idle());
    assert_eq!(tree.next_sstable_id(), 0);
    assert!(tree.sstables().is_empty());
    assert_eq!(disk.flush(&mut tree), Ok(()));
    assert_eq!(disk.segment_count(), 0);
    assert!(disk.asked.is_empty());
}

#[test]
fn flush_writes_the_segment_then_purges_the_log() {
    let mut disk = Disk::new();
    let mut tree = disk.open().unwrap();
    disk.put(&mut tree, b"b", b"2").unwrap();
    disk.put(&mut tree, b"a", b"1").unwrap();
    disk.asked.clear();
    assert_eq!(disk.flush(&mut tree), Ok(()));
    assert_eq!(disk.asked, vec!["write sstable_0.sst", "purge"]);
    let mut expected = encode(b"a", b"1");
    expected.extend_from_slice(&encode(b"b", b"2"));
    assert_eq!(disk.file(b"sstable_0.sst"), Some(&expected));
    assert!(disk.wal.is_empty());
    assert!(tree.memtable().is_empty());
    assert_eq!(tree.sstables(), &names(&[b"sstable_0.sst"]));
    assert_eq!(tree.next_sstable_id(), 1);
}

#[test]
fn put_logs_the_record_before_the_memtable_has_it() {
    let mut disk = Disk::new();
    let mut tree = disk.open().unwrap();
    let step = tree.put(b"a".to_vec(), b"1".to_vec());
    match &step {
        Step::AppendWal(record) => assert_eq!(record, &encode(b"a", b"1")),
        other => panic!("unexpected step {:?}", other),
    }
    assert!(!tree.is_idle());
    assert!(tree.memtable().is_empty());
    let next = tree.resume(Reply::Done);
    assert!(matches!(next, Step::Finished(Ok(None))));
    assert!(tree.is_idle());
    assert_eq!(tree.memtable().get(b"a"), Some(&b"1"[..]));
    let _ = &mut disk;
}

#[test]
fn compaction_keeps_every_value_and_leaves_one_segment() {
    let mut disk = Disk::new();
    let mut tree = disk.open().unwrap();
    disk.put(&mut tree, b"a", b"1").unwrap();
    disk.put(&mut tree, b"b", b"1").unwrap();
    disk.flush(&mut tree).unwrap();
    disk.put(&mut tree, b"b", b"2").unwrap();
    disk.put(&mut tree, b"c", b"2").unwrap();
    disk.flush(&mut tree).unwrap();
    disk.put(&mut tree, b"c", b"3").unwrap();
    disk.put(&mut tree, b"d", b"3").unwrap();
    disk.flush(&mut tree).unwrap();
    disk.put(&mut tree, b"e", b"4").unwrap();
    let keys: [&[u8]; 6] = [b"a", b"b", b"c", b"d", b"e", b"f"];
    let before: Vec<_> = keys.iter().map(|key| disk.get(&mut tree, key)).collect();
    assert_eq!(before, vec![some(b"1"), some(b"2"), some(b"3"), some(b"3"), some(b"4"), Ok(None)]);
    disk.asked.clear();
    assert_eq!(disk.compact_all(&mut tree), Ok(()));
    assert_eq!(
        disk.asked,
        vec![
            "read sstable_0.sst",
            "read sstable_1.sst",
            "read sstable_2.sst",
            "write sstable_3.sst",
            "remove sstable_0.sst",
            "remove sstable_1.sst",
            "remove sstable_2.sst",
        ]
    );
    let after: Vec<_> = keys.iter().map(|key| disk.get(&mut tree, key)).collect();
    assert_eq!(after, before);
    assert_eq!(disk.segment_count(), 1);
    assert_eq!(tree.sstables(), &names(&[b"sstable_3.sst"]));
    assert_eq!(tree.next_sstable_id(), 4);
    let mut expected = encode(b"a", b"1");
    expected.extend_from_slice(&encode(b"b", b"2"));
    expected.extend_from_slice(&encode(b"c", b"3"));
    expected.extend_from_slice(&encode(b"d", b"3"));
    assert_eq!(disk.file(b"sstable_3.sst"), Some(&expected));
    // The memtable and the log are as they were.
    assert_eq!(tree.memtable().size(), 1);
    assert_eq!(disk.wal, encode(b"e", b"4"));
}

#[test]
fn compaction_of_no_segment_writes_an_empty_one() {
    let mut disk = Disk::new();
    let mut tree = disk.open().unwrap();
    assert_eq!(disk.compact_all(&mut tree), Ok(()));
    assert_eq!(disk.asked, vec!["write sstable_0.sst"]);
    assert_eq!(disk.file(b"sstable_0.sst"), Some(&Vec::new()));
    assert_eq!(tree.sstables(), &names(&[b"sstable_0.sst"]));
    assert_eq!(tree.next_sstable_id(), 1);
}

#[test]
fn generations_are_not_used_again_after_compaction() {
    let mut disk = Disk::new();
    let mut tree = disk.open().unwrap();
    disk.put(&mut tree, b"a", b"1").unwrap();
    disk.flush(&mut tree).unwrap();
    disk.compact_all(&mut tree).unwrap();
    disk.put(&mut tree, b"b", b"2").unwrap();
    disk.flush(&mut tree).unwrap();
    assert_eq!(tree.sstables(), &names(&[b"sstable_1.sst", b"sstable_2.sst"]));
    assert_eq!(disk.get(&mut tree, b"a"), some(b"1"));
    assert_eq!(disk.get(&mut tree, b"b"), some(b"2"));
}

#[test]
fn a_memtable_over_its_size_is_flushed_by_the_write() {
    let mut disk = Disk::new();
    let mut tree = disk.open().unwrap();
    let value = vec![7u8; 65536];
    assert_eq!(disk.put(&mut tree, b"a", &value), Ok(()));
    assert_eq!(tree.memtable().total_bytes(), 65537);
    assert_eq!(disk.segment_count(), 0);
    // 65537 + 65535 is the size exactly: no flush yet.
    let rest = vec![8u8; 65534];
    assert_eq!(disk.put(&mut tree, b"b", &rest), Ok(()));
    assert_eq!(tree.memtable().total_bytes(), 131072);
    assert_eq!(disk.segment_count(), 0);
    disk.asked.clear();
    assert_eq!(disk.put(&mut tree, b"c", b""), Ok(()));
    assert_eq!(disk.asked, vec!["append", "write sstable_0.sst", "purge"]);
    assert_eq!(tree.memtable().total_bytes(), 0);
    assert!(tree.memtable().is_empty());
    assert_eq!(disk.segment_count(), 1);
    assert!(disk.wal.is_empty());
    assert_eq!(disk.get(&mut tree, b"a"), some(&value));
    assert_eq!(disk.get(&mut tree, b"b"), some(&rest));
    assert_eq!(disk.get(&mut tree, b"c"), some(b""));
}

#[test]
fn oversized_key_is_refused_before_anything_is_asked() {
    let mut disk = Disk::new();
    let mut tree = disk.open().unwrap();
    let step = tree.put(vec![0u8; 65537], b"v".to_vec());
    assert!(matches!(step, Step::Finished(Err(Error::TooLarge))));
    assert!(tree.is_idle());
    assert!(tree.memtable().is_empty());
    assert_eq!(disk.put(&mut tree, &vec![0u8; 65537], b"v"), Err(Error::TooLarge));
    assert!(disk.asked.is_empty());
    assert!(disk.wal.is_empty());
}

#[test]
fn oversized_value_is_refused_before_anything_is_asked() {
    let mut disk = Disk::new();
    let mut tree = disk.open().unwrap();
    assert_eq!(disk.put(&mut tree, b"k", &vec![0u8; 65537]), Err(Error::TooLarge));
    assert!(disk.asked.is_empty());
    assert!(disk.wal.is_empty());
    assert!(tree.memtable().is_empty());
    assert_eq!(disk.put(&mut tree, &vec![1u8; 65536], &vec![0u8; 65536]), Ok(()));
}

#[test]
fn open_orders_segments_by_generation() {
    let wal = Wal::open(Vec::new());
    let listing = names(&[
        b"sstable_10.sst",
        b"notes.txt",
        b"sstable_2.sst",
        b"wal.log",
        b"sstable_x.sst",
        b"sstable_33.sst",
        b"sstable_1.sst",
    ]);
    let tree = LsmTree::open(&wal, &listing).unwrap();
    assert_eq!(
        tree.sstables(),
        &names(&[b"sstable_1.sst", b"sstable_2.sst", b"sstable_10.sst", b"sstable_33.sst"])
    );
    assert_eq!(tree.next_sstable_id(), 34);
}

#[test]
fn open_keeps_names_of_one_generation_in_the_given_order() {
    let wal = Wal::open(Vec::new());
    let listing = names(&[b"sstable_05.sst", b"sstable_7.sst", b"sstable_5.sst", b"sstable_+5.sst"]);
    let tree = LsmTree::open(&wal, &listing).unwrap();
    assert_eq!(
        tree.sstables(),
        &names(&[b"sstable_05.sst", b"sstable_5.sst", b"sstable_+5.sst", b"sstable_7.sst"])
    );
    assert_eq!(tree.next_sstable_id(), 8);
}

#[test]
fn open_replays_the_log_in_write_order() {
    let mut wal = Wal::open(Vec::new());
    wal.append(b"a", b"1");
    wal.append(b"b", b"2");
    wal.append(b"a", b"3");
    let tree = LsmTree::open(&wal, &Vec::new()).unwrap();
    assert_eq!(tree.memtable().get(b"a"), Some(&b"3"[..]));
    assert_eq!(tree.memtable().get(b"b"), Some(&b"2"[..]));
    assert_eq!(tree.memtable().size(), 2);
}

#[test]
fn open_fails_on_a_corrupt_log() {
    let mut bytes = encode(b"a", b"1");
    bytes.extend_from_slice(&[1, 2, 3]);
    let result = LsmTree::open(&Wal::open(bytes), &Vec::new());
    assert!(matches!(result, Err(Error::Corrupt)));
}

#[test]
fn failed_append_leaves_the_memtable_untouched() {
    let mut disk = Disk::new();
    let mut tree = disk.open().unwrap();
    disk.fail_after = Some(0);
    assert_eq!(disk.put(&mut tree, b"a", b"1"), Err(Error::Io));
    assert!(tree.is_idle());
    assert!(tree.memtable().is_empty());
    assert_eq!(disk.get(&mut tree, b"a"), Ok(None));
    assert_eq!(disk.put(&mut tree, b"a", b"2"), Ok(()));
    assert_eq!(disk.get(&mut tree, b"a"), some(b"2"));
}

#[test]
fn failed_segment_write_keeps_the_memtable_and_the_log() {
    let mut disk = Disk::new();
    let mut tree = disk.open().unwrap();
    disk.put(&mut tree, b"a", b"1").unwrap();
    disk.fail_after = Some(0);
    assert_eq!(disk.flush(&mut tree), Err(Error::Io));
    assert!(tree.is_idle());
    assert_eq!(tree.memtable().get(b"a"), Some(&b"1"[..]));
    assert!(tree.sstables().is_empty());
    assert_eq!(disk.wal, encode(b"a", b"1"));
    // The generation is spent; the next flush takes the one after.
    assert_eq!(tree.next_sstable_id(), 1);
    assert_eq!(disk.flush(&mut tree), Ok(()));
    assert_eq!(tree.sstables(), &names(&[b"sstable_1.sst"]));
}

#[test]
fn failed_purge_comes_after_the_segment_is_in_place() {
    let mut disk = Disk::new();
    let mut tree = disk.open().unwrap();
    disk.put(&mut tree, b"a", b"1").unwrap();
    disk.fail_after = Some(1);
    assert_eq!(disk.flush(&mut tree), Err(Error::Io));
    assert!(tree.is_idle());
    assert!(tree.memtable().is_empty());
    assert_eq!(tree.sstables(), &names(&[b"sstable_0.sst"]));
    assert_eq!(disk.get(&mut tree, b"a"), some(b"1"));
}

#[test]
fn failed_read_ends_a_lookup() {
    let mut disk = Disk::new();
    let mut tree = disk.open().unwrap();
    disk.put(&mut tree, b"a", b"1").unwrap();
    disk.flush(&mut tree).unwrap();
    disk.fail_after = Some(0);
    assert_eq!(disk.get(&mut tree, b"a"), Err(Error::Io));
    assert!(tree.is_idle());
    assert_eq!(disk.get(&mut tree, b"a"), some(b"1"));
}

#[test]
fn failed_removal_leaves_the_new_segment_in_place() {
    let mut disk = Disk::new();
    let mut tree = disk.open().unwrap();
    disk.put(&mut tree, b"a", b"1").unwrap();
    disk.flush(&mut tree).unwrap();
    disk.put(&mut tree, b"b", b"2").unwrap();
    disk.flush(&mut tree).unwrap();
    // Two reads and the write succeed; the first removal fails.
    disk.fail_after = Some(3);
    assert_eq!(disk.compact_all(&mut tree), Err(Error::Io));
    assert!(tree.is_idle());
    assert_eq!(tree.sstables(), &names(&[b"sstable_2.sst"]));
    assert_eq!(disk.segment_count(), 3);
    assert_eq!(disk.get(&mut tree, b"a"), some(b"1"));
    assert_eq!(disk.get(&mut tree, b"b"), some(b"2"));
}

#[test]
fn failed_write_of_the_merged_segment_keeps_the_segments() {
    let mut disk = Disk::new();
    let mut tree = disk.open().unwrap();
    disk.put(&mut tree, b"a", b"1").unwrap();
    disk.flush(&mut tree).unwrap();
    disk.fail_after = Some(1);
    assert_eq!(disk.compact_all(&mut tree), Err(Error::Io));
    assert_eq!(tree.sstables(), &names(&[b"sstable_0.sst"]));
    assert_eq!(disk.segment_count(), 1);
    assert_eq!(disk.get(&mut tree, b"a"), some(b"1"));
}

#[test]
fn corrupt_segment_fails_a_lookup_that_reaches_it() {
    let mut disk = Disk::new();
    disk.files.push((b"sstable_0.sst".to_vec(), vec![1, 2, 3]));
    let mut tree = disk.open().unwrap();
    assert_eq!(disk.get(&mut tree, b"a"), Err(Error::Corrupt));
    assert!(tree.is_idle());
    disk.put(&mut tree, b"a", b"1").unwrap();
    disk.flush(&mut tree).unwrap();
    assert_eq!(disk.get(&mut tree, b"a"), some(b"1"));
    assert_eq!(disk.get(&mut tree, b"b"), Err(Error::Corrupt));
}

#[test]
fn corrupt_segment_fails_compaction() {
    let mut disk = Disk::new();
    let mut bytes = encode(b"a", b"1");
    bytes.push(0);
    disk.files.push((b"sstable_4.sst".to_vec(), bytes));
    let mut tree = disk.open().unwrap();
    assert_eq!(disk.compact_all(&mut tree), Err(Error::Corrupt));
    assert!(tree.is_idle());
    assert_eq!(tree.sstables(), &names(&[b"sstable_4.sst"]));
    assert_eq!(disk.segment_count(), 1);
}

#[test]
fn compaction_merges_newer_over_older_within_and_across_segments() {
    let mut disk = Disk::new();
    let mut older = encode(b"a", b"old");
    older.extend_from_slice(&encode(b"b", b"old"));
    let mut newer = encode(b"b", b"new");
    newer.extend_from_slice(&encode(b"c", b"new"));
    disk.files.push((b"sstable_8.sst".to_vec(), newer));
    disk.files.push((b"sstable_3.sst".to_vec(), older));
    let mut tree = disk.open().unwrap();
    assert_eq!(disk.compact_all(&mut tree), Ok(()));
    assert_eq!(tree.sstables(), &names(&[b"sstable_9.sst"]));
    let mut expected = encode(b"a", b"old");
    expected.extend_from_slice(&encode(b"b", b"new"));
    expected.extend_from_slice(&encode(b"c", b"new"));
    assert_eq!(disk.file(b"sstable_9.sst"), Some(&expected));
    assert_eq!(disk.segment_count(), 1);
}

#[test]
fn operation_started_out_of_turn_is_refused() {
    let mut disk = Disk::new();
    let mut tree = disk.open().unwrap();
    let pending = tree.put(b"a".to_vec(), b"1".to_vec());
    assert!(matches!(pending, Step::AppendWal(_)));
    assert!(matches!(tree.put(b"b".to_vec(), b"2".to_vec()), Step::Finished(Err(Error::OutOfTurn))));
    assert!(matches!(tree.get(b"a"), Step::Finished(Err(Error::OutOfTurn))));
    assert!(matches!(tree.flush(), Step::Finished(Err(Error::OutOfTurn))));
    assert!(matches!(tree.compact_all(), Step::Finished(Err(Error::OutOfTurn))));
    assert!(!tree.is_idle());
    // The write that was pending goes on.
    assert_eq!(disk.run(&mut tree, pending), Ok(None));
    assert_eq!(disk.get(&mut tree, b"a"), some(b"1"));
    assert_eq!(disk.get(&mut tree, b"b"), Ok(None));
}

#[test]
fn reply_to_nothing_is_out_of_turn() {
    let disk = Disk::new();
    let mut tree = disk.open().unwrap();
    assert!(matches!(tree.resume(Reply::Done), Step::Finished(Err(Error::OutOfTurn))));
    assert!(matches!(tree.resume(Reply::Failed), Step::Finished(Err(Error::OutOfTurn))));
    assert!(tree.is_idle());
}

#[test]
fn reply_of_the_wrong_kind_ends_the_operation() {
    let disk = Disk::new();
    let mut tree = disk.open().unwrap();
    let _ = tree.put(b"a".to_vec(), b"1".to_vec());
    let step = tree.resume(Reply::Segment(SSTable::from_bytes(Vec::new())));
    assert!(matches!(step, Step::Finished(Err(Error::OutOfTurn))));
    assert!(tree.is_idle());
    assert!(tree.memtable().is_empty());
}

#[test]
fn generations_run_out() {
    let mut disk = Disk::new();
    disk.files.push((b"sstable_4294967295.sst".to_vec(), Vec::new()));
    let mut tree = disk.open().unwrap();
    assert_eq!(tree.next_sstable_id(), 4294967296);
    disk.put(&mut tree, b"a", b"1").unwrap();
    assert_eq!(disk.flush(&mut tree), Err(Error::Exhausted));
    assert!(tree.is_idle());
    assert_eq!(tree.memtable().get(b"a"), Some(&b"1"[..]));
    assert_eq!(disk.compact_all(&mut tree), Err(Error::Exhausted));
    assert_eq!(disk.segment_count(), 1);
    assert_eq!(disk.get(&mut tree, b"a"), some(b"1"));
}

#[test]
fn last_generation_can_still_be_used() {
    let mut disk = Disk::new();
    disk.files.push((b"sstable_4294967294.sst".to_vec(), Vec::new()));
    let mut tree = disk.open().unwrap();
    disk.put(&mut tree, b"a", b"1").unwrap();
    assert_eq!(disk.flush(&mut tree), Ok(()));
    assert_eq!(
        tree.sstables(),
        &names(&[b"sstable_4294967294.sst", b"sstable_4294967295.sst"])
    );
    disk.put(&mut tree, b"b", b"2").unwrap();
    assert_eq!(disk.flush(&mut tree), Err(Error::Exhausted));
}
