use agilulf::database_log::DatabaseLog;
use agilulf::manifest_manager::{live_tables, RawManifestLogEntry};
use agilulf::mem_database::MemDatabase;
use agilulf::merge::{merge_iter, MergeIter};
use agilulf::request::Command;
use agilulf::sstable::SSTable;
use agilulf::Slice;

fn key8(bytes: &[u8]) -> Slice {
    let mut v = bytes.to_vec();
    while v.len() < 8 {
        v.push(0);
    }
    Slice(v)
}

fn val256(bytes: &[u8]) -> Slice {
    let mut v = bytes.to_vec();
    while v.len() < 256 {
        v.push(0);
    }
    Slice(v)
}

#[test]
fn save_sstable() {
    let mut db = MemDatabase::new();
    db.put_sync(Slice(b"HELLO".to_vec()), Slice(b"WORLD".to_vec()))
        .unwrap();

    let sstable = SSTable::from_mem(&db);
    let buf = sstable.freeze();

    assert_eq!(&buf[0..5], b"HELLO");
    assert_eq!(&buf[5..8], vec![0; 3].as_slice());
    assert_eq!(&buf[8..13], b"WORLD");
    assert_eq!(&buf[13..(256 + 8)], vec![0; 251].as_slice());
}

#[test]
fn read_sstable() {
    let mut db = MemDatabase::new();
    db.put_sync(key8(b"HELLO"), val256(b"WORLD")).unwrap();

    let sstable = SSTable::from_mem(&db);
    let buf = sstable.freeze();

    let sstable = SSTable::from_bytes(&buf).unwrap();
    let value = sstable.get_sync(key8(b"HELLO")).unwrap();

    assert_eq!(&value.0[0..5], b"WORLD");
}

#[test]
fn tombstone_aware_freeze() {
    // a freeze right after a delete: the flushed table answers
    // "not found" for the deleted key rather than an older value
    let mut db = MemDatabase::new();
    db.put_sync(key8(b"k1"), val256(b"v1")).unwrap();
    db.delete_sync(key8(b"k1")).unwrap();

    let table = SSTable::from_mem(&db);
    assert_eq!(table.len(), 0);
    assert!(table.get_sync(key8(b"k1")).is_err());
}

#[test]
fn wal_append_and_replay() {
    let mut log = DatabaseLog::create_new();
    log.put_sync(&Slice(b"HELLO".to_vec()), &Slice(b"WORLD".to_vec()))
        .unwrap();

    for command in log.iter() {
        match command {
            Command::PUT(command) => {
                assert_eq!(&command.key.0[0..5], b"HELLO");
                assert_eq!(&command.value.0[0..5], b"WORLD");
            }
            _ => unreachable!(),
        }
    }

    let commands = log.iter();
    let mem = MemDatabase::restore_from_iterator(&commands);
    let value = mem.get_sync(key8(b"HELLO")).unwrap();
    assert_eq!(&value.0[0..5], b"WORLD");
}

#[test]
fn wal_round_trips_through_bytes() {
    let mut log = DatabaseLog::create_new();
    log.put_sync(&key8(b"a"), &val256(b"1")).unwrap();
    log.delete_sync(&key8(b"b")).unwrap();
    let bytes = log.to_bytes();
    assert_eq!(bytes.len(), 2 * 266);

    let reread = DatabaseLog::from_bytes(&bytes).unwrap();
    let commands = reread.iter();
    assert_eq!(commands.len(), 2);
    match &commands[0] {
        Command::PUT(c) => assert_eq!(c.key, key8(b"a")),
        _ => unreachable!(),
    }
    match &commands[1] {
        Command::DELETE(c) => assert_eq!(c.key, key8(b"b")),
        _ => unreachable!(),
    }
}

#[test]
fn delete_of_unknown_key_appends_tombstone() {
    let mut log = DatabaseLog::create_new();
    let mut mem = MemDatabase::new();
    assert!(mem.get_sync(key8(b"nope")).is_err());
    assert!(log.delete_sync(&key8(b"nope")).is_ok());
    assert!(mem.delete_sync(key8(b"nope")).is_ok());
    assert_eq!(log.len(), 1);
    match &log.iter()[0] {
        Command::DELETE(c) => assert_eq!(c.key, key8(b"nope")),
        _ => unreachable!(),
    }
}

#[test]
fn manifest_with_only_adds() {
    let mut entries: Vec<RawManifestLogEntry> = Vec::new();
    for id in 0..4u8 {
        entries.push(RawManifestLogEntry {
            real_flag: 1,
            add_flag: 1,
            level: 0,
            id,
        });
    }
    let live = live_tables(&entries).unwrap();
    assert_eq!(live.len(), 4);
    for id in 0..4u8 {
        assert!(live.contains(&(0, id)));
    }
}

#[test]
fn manifest_add_remove_cancels() {
    let mut entries: Vec<RawManifestLogEntry> = Vec::new();
    entries.push(RawManifestLogEntry {
        real_flag: 1,
        add_flag: 1,
        level: 0,
        id: 7,
    });
    entries.push(RawManifestLogEntry {
        real_flag: 1,
        add_flag: 0,
        level: 0,
        id: 7,
    });
    let live = live_tables(&entries).unwrap();
    assert_eq!(live.len(), 0);
}

#[test]
fn manifest_rejects_bad_level() {
    let entries = vec![RawManifestLogEntry {
        real_flag: 1,
        add_flag: 1,
        level: 6,
        id: 0,
    }];
    assert!(live_tables(&entries).is_err());
}

#[test]
fn merge_prefers_first_iterator() {
    let a = vec![
        (key8(b"a"), val256(b"newest-a")),
        (key8(b"c"), val256(b"newest-c")),
    ];
    let b = vec![
        (key8(b"a"), val256(b"old-a")),
        (key8(b"b"), val256(b"old-b")),
    ];
    let mut merged: MergeIter = merge_iter(vec![a, b]);
    let first = merged.next().unwrap();
    assert_eq!(first.0, key8(b"a"));
    assert_eq!(first.1, val256(b"newest-a"));
    let second = merged.next().unwrap();
    assert_eq!(second.0, key8(b"b"));
    assert_eq!(second.1, val256(b"old-b"));
    let third = merged.next().unwrap();
    assert_eq!(third.0, key8(b"c"));
    assert_eq!(third.1, val256(b"newest-c"));
    assert!(merged.next().is_none());
}

#[test]
fn unsorted_table_bytes_are_rejected() {
    let mut mem = MemDatabase::new();
    mem.put_sync(key8(b"b"), val256(b"2")).unwrap();
    mem.put_sync(key8(b"a"), val256(b"1")).unwrap();
    let good = SSTable::from_mem(&mem).freeze();
    assert!(SSTable::from_bytes(&good).is_ok());

    // swap the two records: the keys now come descending
    let mut bad = Vec::new();
    bad.extend_from_slice(&good[264..528]);
    bad.extend_from_slice(&good[0..264]);
    assert!(SSTable::from_bytes(&bad).is_err());
}
