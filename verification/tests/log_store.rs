use std::collections::HashMap;
use kvlog::data::Staged;
use kvlog::filepool::FilePool;
use kvlog::index::Log;

/// The host's side of the engine, for the tests: segment files as byte
/// vectors, written from the staged batches exactly as a real host would
/// write them to disk (index rows first, then the record images).
struct FakeDisk {
    files: HashMap<u64, Vec<u8>>,
    indexes: HashMap<u64, Vec<u8>>,
}

impl FakeDisk {
    fn new() -> FakeDisk {
        FakeDisk { files: HashMap::new(), indexes: HashMap::new() }
    }

    fn flush(&mut self, log: &mut Log) {
        for (fileid, img) in log.index_images() {
            self.indexes.entry(fileid).or_insert_with(Vec::new).extend_from_slice(&img);
        }
        for (fileid, batch) in log.take_batches() {
            let file = self.files.entry(fileid).or_insert_with(Vec::new);
            for (offset, staged) in batch {
                let bytes = match staged {
                    Staged::Rec(rec) => rec.to_bytes(),
                    Staged::Gap(n) => vec![0u8; n],
                };
                let end = offset as usize + bytes.len();
                if file.len() < end {
                    file.resize(end, 0);
                }
                file[offset as usize..end].copy_from_slice(&bytes);
            }
        }
    }

    fn read_from(&self, fileid: u64, offset: u32) -> Vec<u8> {
        let file = self.files.get(&fileid).expect("no such segment file");
        file[offset as usize..].to_vec()
    }

    fn whole_file(&self, fileid: u64) -> Vec<u8> {
        self.files.get(&fileid).cloned().unwrap_or_else(Vec::new)
    }
}

fn open_store(now: u64) -> Log {
    let pool = FilePool::new(&Vec::new(), now);
    Log::new(pool)
}

fn get(log: &Log, disk: &FakeDisk, key: &[u8]) -> Option<Vec<u8>> {
    let keyv = key.to_vec();
    let slot = log.locate(&keyv)?;
    let data = disk.read_from(slot.fileid, slot.offset);
    log.get_value(&keyv, &data).expect("mapping and disk disagree")
}

#[test]
fn set_then_get_returns_the_value() {
    let mut log = open_store(1000);
    let mut disk = FakeDisk::new();
    log.set(b"a".to_vec(), b"1".to_vec(), 1001).unwrap();
    log.set(b"b".to_vec(), b"22".to_vec(), 1002).unwrap();
    disk.flush(&mut log);
    assert_eq!(get(&log, &disk, b"a"), Some(b"1".to_vec()));
    assert_eq!(get(&log, &disk, b"b"), Some(b"22".to_vec()));
    assert_eq!(get(&log, &disk, b"c"), None);
}

#[test]
fn setting_twice_observes_the_latest_value() {
    let mut log = open_store(1000);
    let mut disk = FakeDisk::new();
    log.set(b"k".to_vec(), b"v1".to_vec(), 1001).unwrap();
    disk.flush(&mut log);
    log.set(b"k".to_vec(), b"v2".to_vec(), 1002).unwrap();
    disk.flush(&mut log);
    assert_eq!(get(&log, &disk, b"k"), Some(b"v2".to_vec()));
    // the first record was deleted in place and its extent reclaimed, so
    // first fit put the second record at the same offset
    let slot = log.locate(&b"k".to_vec()).unwrap();
    assert_eq!(slot.offset, 0);
    assert_eq!(log.used_size_of(1000).unwrap(), 32);
}

#[test]
fn a_gap_marker_hides_a_deleted_record() {
    let mut log = open_store(1000);
    let mut disk = FakeDisk::new();
    log.set(b"k".to_vec(), b"v1".to_vec(), 1001).unwrap();
    log.set(b"other".to_vec(), b"x".to_vec(), 1002).unwrap();
    disk.flush(&mut log);
    let slot = log.locate(&b"k".to_vec()).unwrap();
    let data = disk.read_from(slot.fileid, slot.offset);
    log.remove(&b"k".to_vec(), &data).unwrap().unwrap();
    disk.flush(&mut log);
    // the bytes at the old offset now read back as a gap marker
    let first = disk.read_from(1000, slot.offset);
    assert!(kvlog::data::Record::read_from(&first, 0).unwrap().is_none());
    assert_eq!(get(&log, &disk, b"other"), Some(b"x".to_vec()));
}

#[test]
fn removing_a_key_forgets_it() {
    let mut log = open_store(1000);
    let mut disk = FakeDisk::new();
    log.set(b"k".to_vec(), b"v".to_vec(), 1001).unwrap();
    disk.flush(&mut log);
    let slot = log.locate(&b"k".to_vec()).unwrap();
    let data = disk.read_from(slot.fileid, slot.offset);
    let removed = log.remove(&b"k".to_vec(), &data).unwrap().unwrap();
    assert_eq!(removed.value, b"v".to_vec());
    disk.flush(&mut log);
    assert_eq!(get(&log, &disk, b"k"), None);
    // removing again finds nothing
    let again = log.remove(&b"k".to_vec(), &Vec::new()).unwrap();
    assert!(again.is_none());
    // the extent was reclaimed: the next record reuses offset zero
    log.set(b"k2".to_vec(), b"w".to_vec(), 1002).unwrap();
    assert_eq!(log.locate(&b"k2".to_vec()).unwrap().offset, 0);
}

#[test]
fn sync_all_drains_the_dirty_set() {
    let mut log = open_store(1000);
    log.set(b"a".to_vec(), b"1".to_vec(), 1001).unwrap();
    log.set(b"b".to_vec(), b"2".to_vec(), 1002).unwrap();
    let dirty = log.sync_all();
    assert_eq!(dirty, vec![1000u64]);
    let empty = log.sync_all();
    assert!(empty.is_empty());
}

#[test]
fn a_thousand_keys_survive_a_flush() {
    let mut log = open_store(1000);
    let mut disk = FakeDisk::new();
    for i in 0..1000u32 {
        let key = format!("key-{}", i).into_bytes();
        let value = format!("value-{}", i).into_bytes();
        log.set(key, value, 2000 + i as u64).unwrap();
    }
    disk.flush(&mut log);
    let dirty = log.sync_all();
    assert_eq!(dirty.len(), 1);
    for i in 0..1000u32 {
        let key = format!("key-{}", i).into_bytes();
        let want = format!("value-{}", i).into_bytes();
        assert_eq!(get(&log, &disk, &key), Some(want));
    }
}

#[test]
fn a_full_segment_births_a_successor() {
    let mut log = open_store(1000);
    let mut disk = FakeDisk::new();
    // two records of 16 MiB of payload each fill the 32 MiB segment exactly
    let big = 0x1000000 - 16;
    log.set(b"k1".to_vec(), vec![1u8; big], 1001).unwrap();
    log.set(b"k2".to_vec(), vec![2u8; big], 1002).unwrap();
    assert_eq!(log.locate(&b"k2".to_vec()).unwrap().fileid, 1000);
    disk.flush(&mut log);
    // the third record does not fit: a new segment is born under a greater
    // identifier, and the record lives at its offset zero
    log.set(b"k3".to_vec(), b"small".to_vec(), 1003).unwrap();
    disk.flush(&mut log);
    let slot = log.locate(&b"k3".to_vec()).unwrap();
    assert!(slot.fileid > 1000);
    assert_eq!(slot.offset, 0);
    assert_eq!(get(&log, &disk, b"k3"), Some(b"small".to_vec()));
}

#[test]
fn compaction_relocates_survivors_and_retires_the_segment() {
    let mut log = open_store(1000);
    let mut disk = FakeDisk::new();
    let big = 0x1000000 - 16;
    log.set(b"k1".to_vec(), vec![1u8; big], 1001).unwrap();
    log.set(b"k2".to_vec(), vec![2u8; big], 1002).unwrap();
    log.set(b"k3".to_vec(), b"three".to_vec(), 1003).unwrap();
    disk.flush(&mut log);
    let active = log.locate(&b"k3".to_vec()).unwrap().fileid;
    assert!(active > 1000);
    // kill half of the old segment
    let s1 = log.locate(&b"k1".to_vec()).unwrap();
    let data = disk.read_from(s1.fileid, s1.offset);
    log.remove(&b"k1".to_vec(), &data).unwrap().unwrap();
    disk.flush(&mut log);
    // the old segment is now a candidate at the default threshold
    let cands = log.compress_candidates(75, 100);
    assert_eq!(cands, vec![1000u64]);
    // the host reads the segment and the planner relocates the survivor
    let endoff = log.used_size_of(1000).unwrap();
    let bytes = disk.whole_file(1000);
    let moved = log.compress_segment(1000, &bytes, endoff, 2000).unwrap();
    assert_eq!(moved, 1);
    disk.flush(&mut log);
    // the segment left the registry; the survivors moved and read back
    assert!(log.used_size_of(1000).is_err());
    let s2 = log.locate(&b"k2".to_vec()).unwrap();
    assert!(s2.fileid != 1000);
    assert_eq!(get(&log, &disk, b"k2"), Some(vec![2u8; big]));
    assert_eq!(get(&log, &disk, b"k3"), Some(b"three".to_vec()));
    assert_eq!(get(&log, &disk, b"k1"), None);
}

#[test]
fn compacting_a_fully_dead_segment_drops_it_whole() {
    let mut log = open_store(1000);
    let mut disk = FakeDisk::new();
    let big = 0x1000000 - 16;
    log.set(b"k1".to_vec(), vec![1u8; big], 1001).unwrap();
    log.set(b"k2".to_vec(), vec![2u8; big], 1002).unwrap();
    log.set(b"k3".to_vec(), b"three".to_vec(), 1003).unwrap();
    disk.flush(&mut log);
    for key in [b"k1".as_slice(), b"k2".as_slice()] {
        let s = log.locate(&key.to_vec()).unwrap();
        let data = disk.read_from(s.fileid, s.offset);
        log.remove(&key.to_vec(), &data).unwrap().unwrap();
    }
    disk.flush(&mut log);
    let cands = log.compress_candidates(75, 100);
    assert_eq!(cands, vec![1000u64]);
    let endoff = log.used_size_of(1000).unwrap();
    let bytes = disk.whole_file(1000);
    // nothing lives there: nothing is relocated, the segment is retired
    let moved = log.compress_segment(1000, &bytes, endoff, 2000).unwrap();
    assert_eq!(moved, 0);
    assert!(log.used_size_of(1000).is_err());
    assert_eq!(get(&log, &disk, b"k3"), Some(b"three".to_vec()));
}

#[test]
fn a_synced_key_survives_a_crash_and_reopen() {
    let mut log = open_store(1000);
    let mut disk = FakeDisk::new();
    log.set(b"k".to_vec(), b"v".to_vec(), 1001).unwrap();
    disk.flush(&mut log);
    let dirty = log.sync_all();
    assert_eq!(dirty, vec![1000u64]);
    // the process dies here; only the disk survives
    drop(log);
    let segments = vec![(1000u64, disk.indexes[&1000].clone(), disk.files[&1000].clone())];
    let reopened = Log::recover(&segments, 5000);
    assert_eq!(get(&reopened, &disk, b"k"), Some(b"v".to_vec()));
    assert_eq!(get(&reopened, &disk, b"missing"), None);
    // the rebuilt allocator counts the record's bytes as used
    assert_eq!(reopened.used_size_of(1000).unwrap(), 16);
}

#[test]
fn a_thousand_keys_survive_a_crash_and_reopen() {
    let mut log = open_store(1000);
    let mut disk = FakeDisk::new();
    for i in 0..1000u32 {
        let key = format!("key-{}", i).into_bytes();
        let value = format!("value-{}", i).into_bytes();
        log.set(key, value, 2000 + i as u64).unwrap();
    }
    disk.flush(&mut log);
    log.sync_all();
    drop(log);
    let segments = vec![(1000u64, disk.indexes[&1000].clone(), disk.files[&1000].clone())];
    let reopened = Log::recover(&segments, 9000);
    for i in 0..1000u32 {
        let key = format!("key-{}", i).into_bytes();
        let want = format!("value-{}", i).into_bytes();
        assert_eq!(get(&reopened, &disk, &key), Some(want));
    }
}

#[test]
fn reopening_replays_the_latest_version_of_a_key() {
    let mut log = open_store(1000);
    let mut disk = FakeDisk::new();
    log.set(b"k".to_vec(), b"v1".to_vec(), 1001).unwrap();
    log.set(b"other".to_vec(), b"x".to_vec(), 1002).unwrap();
    disk.flush(&mut log);
    // the second version lands at a fresh offset and appends a second
    // index row for the same key; the later row wins on replay
    log.set(b"k".to_vec(), b"v2".to_vec(), 1003).unwrap();
    disk.flush(&mut log);
    log.sync_all();
    drop(log);
    let segments = vec![(1000u64, disk.indexes[&1000].clone(), disk.files[&1000].clone())];
    let reopened = Log::recover(&segments, 9000);
    assert_eq!(get(&reopened, &disk, b"k"), Some(b"v2".to_vec()));
    assert_eq!(get(&reopened, &disk, b"other"), Some(b"x".to_vec()));
}

#[test]
fn a_failed_sync_goes_back_into_the_dirty_set() {
    let mut log = open_store(1000);
    log.set(b"a".to_vec(), b"1".to_vec(), 1001).unwrap();
    let dirty = log.sync_all();
    assert_eq!(dirty, vec![1000u64]);
    // the host's fsync failed: it hands the identifier back for a retry
    log.mark_unsynced(1000);
    assert_eq!(log.sync_all(), vec![1000u64]);
    assert!(log.sync_all().is_empty());
}

#[test]
fn a_failed_write_hands_its_batch_back() {
    let mut log = open_store(1000);
    let mut disk = FakeDisk::new();
    log.set(b"a".to_vec(), b"1".to_vec(), 1001).unwrap();
    let batches = log.take_batches();
    assert_eq!(batches.len(), 1);
    // the host's write failed: the batch returns to the buffer, and the
    // next flush writes it
    let (fileid, batch) = batches.into_iter().next().unwrap();
    log.restage(fileid, batch).unwrap();
    disk.flush(&mut log);
    assert_eq!(get(&log, &disk, b"a"), Some(b"1".to_vec()));
}
