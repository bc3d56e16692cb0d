use agilulf::skipmap::SkipMap;
use agilulf::Slice;
use rand::distributions::Standard;
use rand::{thread_rng, Rng};
use std::collections::BTreeMap;

fn generate_keys(num: usize) -> Vec<Vec<u8>> {
    (0..num)
        .map(|_| thread_rng().sample_iter(&Standard).take(8).collect())
        .collect()
}

fn generate_values(num: usize) -> Vec<Vec<u8>> {
    (0..num)
        .map(|_| thread_rng().sample_iter(&Standard).take(256).collect())
        .collect()
}

#[test]
fn simple_put_get_test() {
    let mut map: SkipMap<Slice> = SkipMap::new(0);
    map.insert(&Slice(b"key1".to_vec()), Slice(b"value1".to_vec()));
    map.insert(&Slice(b"key2".to_vec()), Slice(b"value2".to_vec()));
    map.insert(&Slice(b"key3".to_vec()), Slice(b"value3".to_vec()));

    assert_eq!(
        map.find(&Slice(b"key1".to_vec())).unwrap(),
        &Slice(b"value1".to_vec())
    );

    map.insert(
        &Slice(b"key1".to_vec()),
        Slice(b"modified_value1".to_vec()),
    );
    assert_eq!(
        map.find(&Slice(b"key1".to_vec())).unwrap(),
        &Slice(b"modified_value1".to_vec())
    );
}

#[test]
fn simple_map_test() {
    let mut map: SkipMap<Slice> = SkipMap::new(0);

    let keys: Vec<Slice> = generate_keys(1000).into_iter().map(Slice).collect();
    let values: Vec<Slice> = generate_values(1000).into_iter().map(Slice).collect();

    for i in 0..1000 {
        map.insert(&keys[i], values[i].clone());
    }

    let mut last_writer: BTreeMap<Vec<u8>, usize> = BTreeMap::new();
    for i in 0..1000 {
        last_writer.insert(keys[i].0.clone(), i);
    }

    for i in 0..1000 {
        let value = map.find(&keys[i]).unwrap();
        let expect = last_writer[&keys[i].0];
        assert_eq!(value, &values[expect]);
    }
}

#[test]
fn scan() {
    let mut map: SkipMap<Slice> = SkipMap::new(0);
    let mut btree_map = BTreeMap::new();

    let keys: Vec<Slice> = generate_keys(1000).into_iter().map(Slice).collect();
    let values: Vec<Slice> = generate_values(1000).into_iter().map(Slice).collect();

    for i in 0..1000 {
        map.insert(&keys[i], values[i].clone());
        btree_map.insert(keys[i].0.clone(), values[i].0.clone());
    }

    for _ in 0..5 {
        let start = rand::thread_rng().gen_range(0..1000);
        let end = rand::thread_rng().gen_range(start..1000);

        // all keys are eight bytes, so the byte-wise order of the
        // reference map matches the store's length-first order
        let range_start = std::cmp::min(keys[start].0.clone(), keys[end].0.clone());
        let range_end = std::cmp::max(keys[start].0.clone(), keys[end].0.clone());

        let kv_pair = map.scan(&Slice(range_start.clone()), &Slice(range_end.clone()));
        let kv_pair_exp: Vec<(Vec<u8>, Vec<u8>)> = btree_map
            .range(range_start.clone()..range_end.clone())
            .map(|(key, value)| (key.clone(), value.clone()))
            .collect();

        assert_eq!(kv_pair.len(), kv_pair_exp.len());
        for i in 0..kv_pair.len() {
            assert_eq!(kv_pair[i].0 .0, kv_pair_exp[i].0);
            assert_eq!(kv_pair[i].1 .0, kv_pair_exp[i].1);
        }
    }
}

#[test]
fn update_test() {
    let mut map: SkipMap<Slice> = SkipMap::new(0);
    map.insert(&Slice(b"key1".to_vec()), Slice(b"value1".to_vec()));
    map.insert(&Slice(b"key2".to_vec()), Slice(b"value2".to_vec()));
    map.insert(&Slice(b"key3".to_vec()), Slice(b"value3".to_vec()));

    let scan_result = map.scan(&Slice(b"key1".to_vec()), &Slice(b"key3".to_vec()));
    assert_eq!(scan_result.len(), 2);
    assert_eq!(scan_result[0].0, Slice(b"key1".to_vec()));
    assert_eq!(scan_result[0].1, &Slice(b"value1".to_vec()));
    assert_eq!(scan_result[1].0, Slice(b"key2".to_vec()));
    assert_eq!(scan_result[1].1, &Slice(b"value2".to_vec()));

    map.insert(
        &Slice(b"key1".to_vec()),
        Slice(b"modified_value1".to_vec()),
    );
    let scan_result = map.scan(&Slice(b"key1".to_vec()), &Slice(b"key3".to_vec()));
    assert_eq!(scan_result.len(), 2);
    assert_eq!(scan_result[0].0, Slice(b"key1".to_vec()));
    assert_eq!(scan_result[0].1, &Slice(b"modified_value1".to_vec()));
    assert_eq!(scan_result[1].0, Slice(b"key2".to_vec()));
    assert_eq!(scan_result[1].1, &Slice(b"value2".to_vec()));
}

#[test]
fn contains_every_inserted_key() {
    let mut map: SkipMap<u64> = SkipMap::new(0);
    let keys: Vec<Vec<u8>> = generate_keys(200);
    for (i, k) in keys.iter().enumerate() {
        map.insert(&Slice(k.clone()), i as u64);
    }
    for k in keys.iter() {
        assert!(map.find(&Slice(k.clone())).is_some());
    }
}
