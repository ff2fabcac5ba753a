use std::cmp::Ordering;
use std::collections::BTreeMap;

use kv_engine::keys::compare_keys;
use kv_engine::{new_engine, Dsn, Engine, MemoryEngine, Modify};

fn fresh() -> MemoryEngine {
    new_engine(Dsn::Memory).ok().unwrap()
}

fn get(e: &MemoryEngine, k: &[u8]) -> Option<Vec<u8>> {
    e.get(k).ok().unwrap()
}

fn seek(e: &MemoryEngine, k: &[u8]) -> Option<(Vec<u8>, Vec<u8>)> {
    e.seek(k).ok().unwrap()
}

#[test]
fn unwritten_keys_are_absent() {
    let mut e = fresh();
    assert_eq!(get(&e, b""), None);
    assert_eq!(get(&e, b"k"), None);
    e.put(b"k", b"v").ok().unwrap();
    assert_eq!(get(&e, b"k\x00"), None);
    assert_eq!(get(&e, b""), None);
    assert_eq!(get(&e, b"j"), None);
}

#[test]
fn second_put_wins() {
    let mut e = fresh();
    e.put(b"k", b"v1").ok().unwrap();
    e.put(b"k", b"v2").ok().unwrap();
    assert_eq!(get(&e, b"k"), Some(b"v2".to_vec()));
}

#[test]
fn put_then_delete_is_absent() {
    let mut e = fresh();
    e.put(b"k", b"v").ok().unwrap();
    e.delete(b"k").ok().unwrap();
    assert_eq!(get(&e, b"k"), None);
    assert_eq!(seek(&e, b""), None);
}

#[test]
fn seek_finds_smallest_key_not_below() {
    let mut e = fresh();
    assert_eq!(seek(&e, b""), None);
    e.write(vec![
        Modify::Put((b"b", b"2")),
        Modify::Put((b"a\x00", b"1")),
        Modify::Put((b"a", b"0")),
        Modify::Put((b"\xff", b"9")),
    ])
    .ok()
    .unwrap();
    assert_eq!(seek(&e, b""), Some((b"a".to_vec(), b"0".to_vec())));
    assert_eq!(seek(&e, b"a"), Some((b"a".to_vec(), b"0".to_vec())));
    assert_eq!(seek(&e, b"a\x00"), Some((b"a\x00".to_vec(), b"1".to_vec())));
    assert_eq!(seek(&e, b"a\x00\x00"), Some((b"b".to_vec(), b"2".to_vec())));
    assert_eq!(seek(&e, b"b"), Some((b"b".to_vec(), b"2".to_vec())));
    assert_eq!(seek(&e, b"c"), Some((b"\xff".to_vec(), b"9".to_vec())));
    assert_eq!(seek(&e, b"\xff"), Some((b"\xff".to_vec(), b"9".to_vec())));
    assert_eq!(seek(&e, b"\xff\x00"), None);
}

#[test]
fn batch_put_pair_then_delete_pair() {
    let mut e = fresh();
    e.write(vec![Modify::Put((b"x", b"1")), Modify::Put((b"y", b"2"))]).ok().unwrap();
    assert_eq!(get(&e, b"x"), Some(b"1".to_vec()));
    assert_eq!(get(&e, b"y"), Some(b"2".to_vec()));
    e.write(vec![Modify::Delete(b"x"), Modify::Delete(b"y")]).ok().unwrap();
    assert_eq!(get(&e, b"x"), None);
    assert_eq!(get(&e, b"y"), None);
}

#[test]
fn deleting_absent_key_is_noop() {
    let mut e = fresh();
    e.put(b"a", b"1").ok().unwrap();
    assert!(e.delete(b"b").is_ok());
    assert!(e.write(vec![Modify::Delete(b"zz"), Modify::Delete(b"")]).is_ok());
    assert_eq!(get(&e, b"a"), Some(b"1".to_vec()));
    assert_eq!(seek(&e, b""), Some((b"a".to_vec(), b"1".to_vec())));
    assert_eq!(seek(&e, b"a\x00"), None);
}

#[test]
fn seek_scenario() {
    let mut e = fresh();
    e.put(b"x", b"1").ok().unwrap();
    assert_eq!(seek(&e, b"x"), Some((b"x".to_vec(), b"1".to_vec())));
    assert_eq!(seek(&e, b"a"), Some((b"x".to_vec(), b"1".to_vec())));
    e.put(b"z", b"2").ok().unwrap();
    assert_eq!(seek(&e, b"y"), Some((b"z".to_vec(), b"2".to_vec())));
    assert_eq!(seek(&e, b"x\x00"), Some((b"z".to_vec(), b"2".to_vec())));
    assert_eq!(seek(&e, b"z\x00"), None);
}

#[test]
fn last_mutation_in_batch_decides() {
    let mut e = fresh();
    e.write(vec![Modify::Delete(b"k"), Modify::Put((b"k", b"v"))]).ok().unwrap();
    assert_eq!(get(&e, b"k"), Some(b"v".to_vec()));
    e.write(vec![Modify::Put((b"k", b"w")), Modify::Delete(b"k")]).ok().unwrap();
    assert_eq!(get(&e, b"k"), None);
    e.write(vec![Modify::Put((b"k", b"1")), Modify::Put((b"k", b"2"))]).ok().unwrap();
    assert_eq!(get(&e, b"k"), Some(b"2".to_vec()));
}

#[test]
fn history_matches_reference_map() {
    let keys: Vec<Vec<u8>> = vec![
        b"".to_vec(),
        b"a".to_vec(),
        b"ab".to_vec(),
        b"b".to_vec(),
        b"\x00".to_vec(),
        b"\xff\x01".to_vec(),
        b"m".to_vec(),
    ];
    let mut e = fresh();
    let mut reference: BTreeMap<Vec<u8>, Vec<u8>> = BTreeMap::new();
    let mut state: u32 = 7;
    for round in 0..40u32 {
        let mut owned: Vec<(bool, Vec<u8>, Vec<u8>)> = Vec::new();
        for _ in 0..(round % 4 + 1) {
            state = state.wrapping_mul(1103515245).wrapping_add(12345);
            let k = keys[((state >> 8) as usize) % keys.len()].clone();
            let is_put = (state >> 4) % 3 != 0;
            let v = format!("v{}", state % 100).into_bytes();
            owned.push((is_put, k, v));
        }
        let batch: Vec<Modify> = owned
            .iter()
            .map(|(p, k, v)| if *p { Modify::Put((k.as_slice(), v.as_slice())) } else { Modify::Delete(k.as_slice()) })
            .collect();
        e.write(batch).ok().unwrap();
        for (p, k, v) in owned.iter() {
            if *p {
                reference.insert(k.clone(), v.clone());
            } else {
                reference.remove(k);
            }
        }
        for k in keys.iter() {
            assert_eq!(get(&e, k), reference.get(k).cloned());
            let expected = reference.range(k.clone()..).next().map(|(a, b)| (a.clone(), b.clone()));
            assert_eq!(seek(&e, k), expected);
        }
    }
}

#[test]
fn persistent_backend_cannot_be_opened() {
    let r = new_engine(Dsn::RocksDBPath("/nonexistent/dir/store"));
    match r {
        Ok(_) => panic!("a persistent store was opened"),
        Err(err) => assert!(!err.description().is_empty()),
    }
    assert!(new_engine(Dsn::Memory).is_ok());
}

#[test]
fn key_order_is_lexicographic_by_byte() {
    assert_eq!(compare_keys(b"", b""), Ordering::Equal);
    assert_eq!(compare_keys(b"", b"\x00"), Ordering::Less);
    assert_eq!(compare_keys(b"a", b"a\x00"), Ordering::Less);
    assert_eq!(compare_keys(b"ab", b"b"), Ordering::Less);
    assert_eq!(compare_keys(b"\xff", b"\x01\x02"), Ordering::Greater);
    assert_eq!(compare_keys(b"abc", b"abc"), Ordering::Equal);
    assert_eq!(compare_keys(b"abd", b"abc"), Ordering::Greater);
}
