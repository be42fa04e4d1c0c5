use cc0::scores::ScoreMap;
use cc0::table::ValueTable;

#[test]
fn update_counts_every_visit() {
    // After n updates of one key its visit count is exactly n.
    let mut t = ValueTable::new(3);
    let key = vec![1u8, 2, 3];
    let (v0, b0) = t.query(&key, 77);
    assert_eq!((v0, b0), (0, 77));
    let n = 25u64;
    for i in 0..n {
        assert!(t.update(&key, 1000 + i));
    }
    let (v1, b1) = t.query(&key, 0);
    assert_eq!(v1, n);
    assert_eq!(b1, 1000 + n - 1);
}

#[test]
fn record_ending_keeps_value() {
    let mut t = ValueTable::new(2);
    let key = vec![9u8, 9];
    t.query(&key, 55);
    assert!(t.record_ending(&key));
    let (v, b) = t.query(&key, 0);
    assert_eq!(v, 1);
    assert_eq!(b, 55);
}

#[test]
fn update_requires_existing_key() {
    let mut t = ValueTable::new(2);
    assert!(!t.update(&vec![1u8, 2], 5));
    assert!(!t.record_ending(&vec![1u8, 2]));
}

#[test]
fn dump_filters_and_load_restores() {
    // Three entries, one past the visit threshold: the dump holds exactly
    // that one, and loading it back restores the byte-equal entry.
    let mut t = ValueTable::new(4);
    let ka = vec![1u8, 0, 0, 0];
    let kb = vec![2u8, 0, 0, 0];
    let kc = vec![3u8, 0, 0, 0];
    t.query(&ka, 11);
    t.query(&kb, 22);
    t.query(&kc, 33);
    for _ in 0..7 {
        t.update(&kb, 4242);
    }
    t.update(&ka, 1);
    let bytes = t.dump_bytes(5);
    assert_eq!(bytes.len(), 4 + 8 + 8);
    let loaded = ValueTable::load_bytes(4, &bytes);
    assert_eq!(loaded.entries.len(), 1);
    assert_eq!(loaded.entries[0].key, kb);
    assert_eq!(loaded.entries[0].visits, 7);
    assert_eq!(loaded.entries[0].value_bits, 4242);
    // Dumping the loaded table reproduces the first dump bit for bit.
    let bytes2 = loaded.dump_bytes(5);
    assert_eq!(bytes, bytes2);
}

#[test]
fn load_ignores_short_tail() {
    let mut t = ValueTable::new(2);
    let key = vec![8u8, 9];
    t.query(&key, 7);
    for _ in 0..6 {
        t.update(&key, 7);
    }
    let mut bytes = t.dump_bytes(5);
    bytes.push(0xAB); // a trailing partial record is dropped
    let loaded = ValueTable::load_bytes(2, &bytes);
    assert_eq!(loaded.entries.len(), 1);
    assert_eq!(loaded.entries[0].key, key);
}

#[test]
fn dump_orders_by_key() {
    let mut t = ValueTable::new(1);
    for k in [5u8, 1, 9, 3] {
        let key = vec![k];
        t.query(&key, k as u64);
        for _ in 0..6 {
            t.update(&key, k as u64);
        }
    }
    let bytes = t.dump_bytes(5);
    assert_eq!(bytes.len(), 4 * 17);
    let keys: Vec<u8> = (0..4).map(|i| bytes[i * 17]).collect();
    assert_eq!(keys, vec![1, 3, 5, 9]);
}

#[test]
fn score_map_insert_and_get() {
    let mut m = ScoreMap::new();
    assert!(m.get(&vec![1, 2]).is_none());
    m.insert(vec![1, 2], 500);
    m.insert(vec![3, 4], -7);
    assert_eq!(m.get(&vec![1, 2]), Some(500));
    assert_eq!(m.get(&vec![3, 4]), Some(-7));
    m.insert(vec![1, 2], 900);
    assert_eq!(m.get(&vec![1, 2]), Some(900));
    assert!(m.get(&vec![9]).is_none());
}
