use std::collections::HashMap;

use file_server::codec::{CodecError, KeyValue};
use file_server::database::{Database, LoadError, SetError};
use file_server::store::{decimal_name, decode_file, encode_file, parse_key, StoredFile};

fn kv(key: usize, value: &[u8]) -> KeyValue {
    KeyValue { key, version: 0, value: value.to_vec() }
}

/// A folder of key files in memory, keyed by (shard name, file name).
type Disk = HashMap<(Vec<u8>, Vec<u8>), Vec<u8>>;

/// Plans a batch, then persists and commits each record in order.
fn write(db: &mut Database, disk: &mut Disk, expected: u32, data: Vec<KeyValue>) -> Result<(), SetError> {
    let ops = db.set(expected, data)?;
    for op in &ops {
        let location = db.file_location(op.key);
        if op.value.is_empty() {
            disk.remove(&location);
        } else {
            disk.insert(location, Database::file_contents(op));
        }
        db.commit(op);
    }
    Ok(())
}

fn reopen(disk: &Disk, hash_divider: usize) -> Result<Database, LoadError> {
    let files = disk
        .iter()
        .map(|((_, name), contents)| StoredFile { name: name.clone(), contents: contents.clone() })
        .collect();
    Database::new(hash_divider, files)
}

fn snapshot(db: &Database) -> Vec<(usize, u32, Vec<u8>)> {
    db.get(0, usize::MAX).iter().map(|r| (r.key, r.version, r.value.clone())).collect()
}

#[test]
fn test_database() {
    let mut disk = Disk::new();
    let mut database = reopen(&disk, 10000).unwrap();
    let mut files: Vec<KeyValue> = (0..1000usize)
        .map(|i| kv(i * 7919 % 100_003, &vec![(i % 251) as u8; 100 + i % 900]))
        .collect();
    write(&mut database, &mut disk, 1, files.clone()).unwrap();
    for f in files.iter_mut() {
        f.version = 1;
    }
    compare_database(&database, &files);
    let mut set: Vec<KeyValue> = files.iter().step_by(10).map(|f| kv(f.key, &[1, 2, 3])).collect();
    for s in &set {
        let f = files.iter_mut().find(|f| f.key == s.key).unwrap();
        f.value = s.value.clone();
        f.version = 2;
    }
    // delete operation
    set[0].value = Vec::new();
    let idx = files.iter().position(|f| f.key == set[0].key).unwrap();
    files.remove(idx);
    write(&mut database, &mut disk, 2, set).unwrap();
    compare_database(&database, &files);
    let database2 = reopen(&disk, 10000).unwrap();
    compare_database(&database2, &files);
}

fn compare_database(database: &Database, files: &Vec<KeyValue>) {
    let data = database.get(0, usize::MAX);
    assert_eq!(data.len(), files.len());
    let by_key: HashMap<usize, &KeyValue> = files.iter().map(|f| (f.key, f)).collect();
    let mut previous = None;
    for item in data {
        let file = by_key.get(&item.key).expect("unexpected key");
        assert_eq!(file.version, item.version);
        assert_eq!(&file.value, item.value);
        if let Some(p) = previous {
            assert!(p < item.key);
        }
        previous = Some(item.key);
    }
}

#[test]
fn persistence_round_trip_keeps_keys_versions_values() {
    let mut disk = Disk::new();
    let mut db = reopen(&disk, 10).unwrap();
    write(&mut db, &mut disk, 1, vec![kv(5, b"a"), kv(17, b"bb"), kv(42, b"ccc")]).unwrap();
    write(&mut db, &mut disk, 2, vec![kv(17, b"x"), kv(5, b"")]).unwrap();
    let again = reopen(&disk, 10).unwrap();
    assert_eq!(snapshot(&again), snapshot(&db));
    assert_eq!(snapshot(&again), vec![(17, 2, b"x".to_vec()), (42, 1, b"ccc".to_vec())]);
    assert_eq!(again.get_version(), 1);
}

#[test]
fn files_are_sharded_by_divider() {
    let db = reopen(&Disk::new(), 100).unwrap();
    assert_eq!(db.file_location(12345), (b"123".to_vec(), b"12345".to_vec()));
    assert_eq!(db.file_location(7), (b"0".to_vec(), b"7".to_vec()));
    let op = KeyValue { key: 7, version: 3, value: vec![9, 8] };
    assert_eq!(Database::file_contents(&op), vec![3, 0, 0, 0, 9, 8]);
}

#[test]
fn range_queries() {
    let mut disk = Disk::new();
    let mut db = reopen(&disk, 10).unwrap();
    write(&mut db, &mut disk, 1, vec![kv(5, b"5"), kv(17, b"17"), kv(42, b"42")]).unwrap();
    let keys = |a: usize, b: usize| db.get(a, b).iter().map(|r| r.key).collect::<Vec<_>>();
    assert_eq!(keys(5, 42), vec![5, 17, 42]);
    assert_eq!(keys(6, 41), vec![17]);
    assert_eq!(keys(43, 100), Vec::<usize>::new());
    assert_eq!(keys(42, 5), Vec::<usize>::new());
    assert_eq!(db.get_last(10, 30).map(|r| r.key), Some(17));
    assert_eq!(db.get_last(0, usize::MAX).map(|r| (r.key, r.value.clone())), Some((42, b"42".to_vec())));
    assert!(db.get_last(100, 200).is_none());
    for (a, b) in [(0, 4), (5, 5), (6, 17), (18, 100), (0, usize::MAX)] {
        let last = db.get(a, b).last().map(|r| r.key);
        assert_eq!(db.get_last(a, b).map(|r| r.key), last);
    }
    assert_eq!(db.get_file_version(17), Some(1));
    assert_eq!(db.get_file_version(18), None);
}

#[test]
fn occ_mismatch_changes_nothing() {
    let mut disk = Disk::new();
    let mut db = reopen(&disk, 10).unwrap();
    write(&mut db, &mut disk, 1, vec![kv(1, b"a")]).unwrap();
    assert_eq!(db.set(1, vec![kv(1, b"b")]).err(), Some(SetError::VersionMismatch));
    assert_eq!(db.get_version(), 2);
    assert_eq!(snapshot(&db), vec![(1, 1, b"a".to_vec())]);
}

#[test]
fn per_key_versions() {
    let mut disk = Disk::new();
    let mut db = reopen(&disk, 10).unwrap();
    write(&mut db, &mut disk, 1, vec![kv(1, b"a")]).unwrap();
    write(&mut db, &mut disk, 2, vec![kv(1, b"a")]).unwrap();
    assert_eq!(db.get_file_version(1), Some(2));
    write(&mut db, &mut disk, 3, vec![kv(1, b"")]).unwrap();
    assert_eq!(db.get_file_version(1), None);
    write(&mut db, &mut disk, 4, vec![kv(1, b"z")]).unwrap();
    assert_eq!(db.get_file_version(1), Some(1));
    assert_eq!(db.get_version(), 5);
}

#[test]
fn set_plans_duplicates_in_order() {
    let mut db = reopen(&Disk::new(), 10).unwrap();
    let ops = db.set(1, vec![kv(3, b"a"), kv(3, b"b"), kv(3, b""), kv(3, b"c")]).unwrap();
    assert_eq!(ops.iter().map(|o| o.version).collect::<Vec<_>>(), vec![1, 2, 0, 1]);
    assert_eq!(db.get_version(), 2);
    // nothing is in memory until committed
    assert_eq!(db.get_file_version(3), None);
}

#[test]
fn version_overflow_is_refused() {
    let files = vec![StoredFile { name: b"9".to_vec(), contents: vec![0xFF, 0xFF, 0xFF, 0xFF, 1] }];
    let mut db = Database::new(10, files).unwrap();
    assert_eq!(db.get_file_version(9), Some(u32::MAX));
    assert_eq!(db.set(1, vec![kv(9, b"x")]).err(), Some(SetError::VersionOverflow));
    assert_eq!(db.get_version(), 1);
    assert!(db.set(1, vec![kv(9, b"")]).is_ok());
}

#[test]
fn corrupt_store_is_refused() {
    let bad_name = vec![StoredFile { name: b"12a".to_vec(), contents: vec![1, 0, 0, 0] }];
    assert_eq!(Database::new(10, bad_name).err(), Some(LoadError::CorruptStore));
    let short = vec![StoredFile { name: b"12".to_vec(), contents: vec![1, 0, 0] }];
    assert_eq!(Database::new(10, short).err(), Some(LoadError::CorruptStore));
    let too_big = vec![StoredFile { name: b"4294967296".to_vec(), contents: vec![1, 0, 0, 0] }];
    assert_eq!(Database::new(10, too_big).err(), Some(LoadError::CorruptStore));
}

#[test]
fn decimal_names() {
    assert_eq!(decimal_name(0), b"0".to_vec());
    assert_eq!(decimal_name(4294967295), b"4294967295".to_vec());
    assert_eq!(parse_key(b"4294967295"), Some(4294967295));
    assert_eq!(parse_key(b"007"), Some(7));
    assert_eq!(parse_key(b"+7"), Some(7));
    assert_eq!(parse_key(b""), None);
    assert_eq!(parse_key(b"+"), None);
    assert_eq!(parse_key(b"-7"), None);
    assert_eq!(parse_key(b"99999999999999999999"), None);
}

#[test]
fn key_files() {
    assert_eq!(encode_file(258, &[5]), vec![2, 1, 0, 0, 5]);
    assert_eq!(decode_file(&[2, 1, 0, 0, 5]), Some((258, vec![5])));
    assert_eq!(decode_file(&[2, 1, 0, 0]), Some((258, vec![])));
    assert_eq!(decode_file(&[2, 1, 0]), None);
}

#[test]
fn batch_decoding() {
    let mut data = vec![2, 0, 0, 0];
    data.extend_from_slice(&[42, 0, 0, 0, 3, 0, 0, 0, b'a', b'b', b'c']);
    data.extend_from_slice(&[7, 1, 0, 0, 0, 0, 0, 0]);
    let records = KeyValue::from(&data).unwrap();
    assert_eq!(records.len(), 2);
    assert_eq!((records[0].key, records[0].version, records[0].value.clone()), (42, 0, b"abc".to_vec()));
    assert_eq!((records[1].key, records[1].version, records[1].value.clone()), (263, 0, vec![]));
    assert_eq!(KeyValue::from(&[0, 0, 0, 0]).map(|v| v.len()), Ok(0));
    assert_eq!(KeyValue::from(&[0, 0, 0]).err(), Some(CodecError::TooShort));
    assert_eq!(KeyValue::from(&[0, 0, 0, 0, 1]).err(), Some(CodecError::TrailingBytes));
    assert_eq!(KeyValue::from(&[1, 0, 0, 0, 1, 0, 0, 0, 5, 0, 0, 0, 1]).err(), Some(CodecError::TooShort));
}

#[test]
fn record_encoding() {
    let record = KeyValue { key: 42, version: 2, value: b"abc".to_vec() };
    assert_eq!(
        record.to_binary(),
        vec![2, 0, 0, 0, 42, 0, 0, 0, 3, 0, 0, 0, b'a', b'b', b'c']
    );
}
