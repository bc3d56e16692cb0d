use agilulf::database::{Database, DatabaseBuilder};
use agilulf::database_log::DatabaseLog;
use agilulf::manifest_manager::ManifestManager;
use agilulf::Slice;
use rand::distributions::Standard;
use rand::{thread_rng, Rng};

fn key8(bytes: &[u8]) -> Slice {
    let mut v = bytes.to_vec();
    while v.len() < 8 {
        v.push(0);
    }
    Slice(v)
}

fn val256(bytes: &[u8]) -> Slice {
    let mut v = bytes.to_vec();
    while v.len() < 256 {
        v.push(0);
    }
    Slice(v)
}

fn generate_keys(num: usize) -> Vec<Vec<u8>> {
    (0..num)
        .map(|_| thread_rng().sample_iter(&Standard).take(8).collect())
        .collect()
}

fn generate_values(num: usize) -> Vec<Vec<u8>> {
    (0..num)
        .map(|_| thread_rng().sample_iter(&Standard).take(256).collect())
        .collect()
}

#[test]
fn log_test() {
    let builder = DatabaseBuilder::new();
    let mut database = builder.build().unwrap();
    database
        .put(key8(b"HELLO"), val256(b"WORLD"))
        .unwrap();
    let value = database.get(key8(b"HELLO")).unwrap();
    assert_eq!(&value.0[0..5], b"WORLD");

    // a crash and restart: the segment is replayed into a fresh store
    let mut mirror = DatabaseLog::create_new();
    mirror
        .put_sync(&key8(b"HELLO"), &val256(b"WORLD"))
        .unwrap();
    let restored = Database::from_recovery(
        mirror,
        Vec::new(),
        ManifestManager::create_new(),
        0,
    )
    .unwrap();
    let value = restored.get(key8(b"HELLO")).unwrap();
    assert_eq!(&value.0[0..5], b"WORLD");
}

#[test]
fn frozen_test() {
    let keys = generate_keys(5 * 1024);
    let values = generate_values(5 * 1024);

    let mut database = Database::new();
    for index in 0..(5 * 1024) {
        database
            .put(Slice(keys[index].clone()), Slice(values[index].clone()))
            .unwrap();
    }
    // enough writes crossed the threshold for at least one freeze
    assert!(database.pending_flush() >= 1);

    let mut last: std::collections::BTreeMap<Vec<u8>, usize> = std::collections::BTreeMap::new();
    for index in 0..(5 * 1024) {
        last.insert(keys[index].clone(), index);
    }
    for index in 0..(5 * 1024) {
        let value = database.get(Slice(keys[index].clone())).unwrap();
        assert_eq!(value, Slice(values[last[&keys[index]]].clone()));
    }
}

#[test]
fn scan_test() {
    let key = key8(b"HELLO");

    let mut database = Database::new();
    for index in 0..(5 * 1024) {
        let value = val256(format!("WORLD{}", index).as_bytes());
        database.put(key.clone(), value).unwrap();
    }

    let ret = database.scan(key8(b"HELL\0"), key8(b"HELLP"));
    assert_eq!(ret.len(), 1);
    let value = val256(format!("WORLD{}", 5 * 1024 - 1).as_bytes());
    assert_eq!(ret[0], (key.clone(), value));
}

#[test]
fn restore_after_big_request_test() {
    let keys = generate_keys(1024 * 16);
    let values = generate_values(1024 * 16);

    let mut database = Database::new();
    // mirror every record the store logs, rotating like the store does
    let mut segments: Vec<(u64, DatabaseLog)> = Vec::new();
    let mut active = DatabaseLog::create_new();
    let mut log_id: u64 = 0;

    for index in 0..(1024 * 16) {
        let key = Slice(keys[index].clone());
        let value = Slice(values[index].clone());
        database.put(key.clone(), value.clone()).unwrap();
        active.put_sync(&key, &value).unwrap();
        if active.len() > 4096 {
            let mut fresh = DatabaseLog::create_new();
            std::mem::swap(&mut active, &mut fresh);
            segments.insert(0, (log_id, fresh));
            log_id += 1;
        }
    }

    let mut last: std::collections::BTreeMap<Vec<u8>, usize> = std::collections::BTreeMap::new();
    for index in 0..(1024 * 16) {
        last.insert(keys[index].clone(), index);
    }

    for index in 0..(1024 * 16) {
        let ans = database.get(Slice(keys[index].clone())).unwrap();
        assert_eq!(ans, Slice(values[last[&keys[index]]].clone()));
    }

    let restored =
        Database::from_recovery(active, segments, ManifestManager::create_new(), log_id).unwrap();
    for index in 0..(1024 * 16) {
        let ans = restored.get(Slice(keys[index].clone())).unwrap();
        assert_eq!(ans, Slice(values[last[&keys[index]]].clone()));
    }
}

#[test]
fn overwrite_then_restart() {
    let k = key8(b"k");
    let mut database = Database::new();
    database.put(k.clone(), val256(b"v1")).unwrap();
    database.put(k.clone(), val256(b"v2")).unwrap();
    database.put(k.clone(), val256(b"v3")).unwrap();
    assert_eq!(database.get(k.clone()).unwrap(), val256(b"v3"));

    let mut mirror = DatabaseLog::create_new();
    mirror.put_sync(&k, &val256(b"v1")).unwrap();
    mirror.put_sync(&k, &val256(b"v2")).unwrap();
    mirror.put_sync(&k, &val256(b"v3")).unwrap();
    let restored =
        Database::from_recovery(mirror, Vec::new(), ManifestManager::create_new(), 0).unwrap();
    assert_eq!(restored.get(k.clone()).unwrap(), val256(b"v3"));
}

#[test]
fn put_delete_get_scan() {
    let k = key8(b"gone");
    let mut database = Database::new();
    database.put(k.clone(), val256(b"v")).unwrap();
    database.delete(k.clone()).unwrap();

    assert!(database.get(k.clone()).is_err());

    let everything = database.scan(Slice(Vec::new()), Slice(vec![255; 9]));
    for (key, _) in everything.iter() {
        assert_ne!(*key, k);
    }
}

#[test]
fn put_twice_same_state() {
    let k = key8(b"twice");
    let v = val256(b"same");
    let mut once = Database::new();
    once.put(k.clone(), v.clone()).unwrap();
    let mut twice = Database::new();
    twice.put(k.clone(), v.clone()).unwrap();
    twice.put(k.clone(), v.clone()).unwrap();

    assert_eq!(once.get(k.clone()).unwrap(), twice.get(k.clone()).unwrap());
    let a = once.scan(Slice(Vec::new()), Slice(vec![255; 9]));
    let b = twice.scan(Slice(Vec::new()), Slice(vec![255; 9]));
    assert_eq!(a, b);
}

#[test]
fn scan_boundaries() {
    let mut database = Database::new();
    database.put(key8(b"keyA"), val256(b"1")).unwrap();
    database.put(key8(b"keyM"), val256(b"2")).unwrap();
    database.put(key8(b"keyZ"), val256(b"3")).unwrap();

    // the key equal to the upper bound stays out
    let ret = database.scan(key8(b"keyA"), key8(b"keyZ"));
    assert_eq!(ret.len(), 2);
    assert_eq!(ret[0], (key8(b"keyA"), val256(b"1")));
    assert_eq!(ret[1], (key8(b"keyM"), val256(b"2")));

    // a zero-length range is empty
    let ret = database.scan(key8(b"keyA"), key8(b"keyA"));
    assert_eq!(ret.len(), 0);
}

#[test]
fn many_keys_with_freeze() {
    let mut database = Database::new();
    for i in 0..5120usize {
        let key = key8(format!("key{}", i).as_bytes());
        let value = val256(format!("val{}", i).as_bytes());
        database.put(key, value).unwrap();
    }
    assert!(database.pending_flush() >= 1);
    for i in 0..5120usize {
        let key = key8(format!("key{}", i).as_bytes());
        let value = val256(format!("val{}", i).as_bytes());
        assert_eq!(database.get(key).unwrap(), value);
    }
}

#[test]
fn interleaved_writers_disjoint_keys() {
    // two request streams with disjoint key sets, interleaved write by
    // write; every read afterwards sees its own writer's value
    let mut database = Database::new();
    let n = 10000usize;
    for i in 0..n {
        let ka = key8(format!("a{}", i).as_bytes());
        let kb = key8(format!("b{}", i).as_bytes());
        database.put(ka, val256(format!("va{}", i).as_bytes())).unwrap();
        database.put(kb, val256(format!("vb{}", i).as_bytes())).unwrap();
    }
    for i in (0..n).step_by(97) {
        let ka = key8(format!("a{}", i).as_bytes());
        let kb = key8(format!("b{}", i).as_bytes());
        assert_eq!(database.get(ka).unwrap(), val256(format!("va{}", i).as_bytes()));
        assert_eq!(database.get(kb).unwrap(), val256(format!("vb{}", i).as_bytes()));
    }
}

#[test]
fn flush_moves_table_to_manifest() {
    let mut database = Database::new();
    for i in 0..4200usize {
        let key = key8(format!("key{}", i).as_bytes());
        database.put(key, val256(b"x")).unwrap();
    }
    assert!(database.pending_flush() >= 1);
    assert!(database.flush_one().unwrap());
    let outcome = database.take_flush_outcome().unwrap();
    assert_eq!(outcome.table_id, 0);
    assert!(outcome.table_bytes.len() > 0);
    assert!(database.take_flush_outcome().is_none());
    // the flushed keys still answer through the table
    for i in (0..4200usize).step_by(131) {
        let key = key8(format!("key{}", i).as_bytes());
        assert_eq!(database.get(key).unwrap(), val256(b"x"));
    }
    // the persisted bytes reopen as a table with the same bindings
    let reopened = agilulf::sstable::SSTable::from_bytes(&outcome.table_bytes).unwrap();
    assert!(reopened.len() > 0);
    for i in 0..4200usize {
        let key = key8(format!("key{}", i).as_bytes());
        if let Ok(v) = reopened.get_sync(key) {
            assert_eq!(v, val256(b"x"));
        }
    }
}
