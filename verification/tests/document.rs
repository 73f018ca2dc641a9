use lseq::Document;

#[test]
fn test_hello_world() {
    let mut doc = Document::new();
    let start = doc.start();
    let end = doc.end();

    let h = doc.insert(0, &start, &end, "hello");
    let e = doc.insert(0, &h, &end, "!");
    let _ = doc.insert(0, &h, &e, "world");

    let values = doc.iter();
    assert_eq!(values.len(), 3);
    assert_eq!(*values[0], "hello");
    assert_eq!(*values[1], "world");
    assert_eq!(*values[2], "!");
}

#[test]
fn lib_test_hello_world() {
    let mut doc = Document::new();
    let start = doc.start();
    let end = doc.end();

    let h = doc.insert(0, &start, &end, "hello");
    let e = doc.insert(0, &h, &end, "!");
    let _ = doc.insert(0, &h, &e, "world");

    let values = doc.iter();
    assert_eq!(*values[0], "hello");
    assert_eq!(*values[1], "world");
    assert_eq!(*values[2], "!");
}

#[test]
fn round_trip_single_insert() {
    let mut doc = Document::new();
    let start = doc.start();
    let end = doc.end();
    let _k = doc.insert(4, &start, &end, 42u8);
    let values = doc.iter();
    assert_eq!(values.len(), 1);
    assert_eq!(*values[0], 42u8);
    assert_eq!(doc.len(), 1);
    assert!(!doc.is_empty());
}

#[test]
fn removal_is_idempotent() {
    let mut doc = Document::new();
    let start = doc.start();
    let end = doc.end();
    let k = doc.insert(1, &start, &end, "x");
    assert_eq!(doc.len(), 1);
    doc.remove(k.clone());
    assert_eq!(doc.len(), 0);
    assert!(doc.get(&k).is_none());
    doc.remove(k.clone());
    assert_eq!(doc.len(), 0);
    assert!(doc.is_empty());
}

#[test]
fn removal_checks_the_clock() {
    let mut doc = Document::new();
    let start = doc.start();
    let end = doc.end();
    let k = doc.insert(1, &start, &end, "kept");
    let mut stale = k.clone();
    stale.clock = k.clock + 1;
    // a removal carrying a different clock must not erase the entry
    doc.remove(stale);
    assert_eq!(doc.len(), 1);
    assert_eq!(doc.get(&k), Some(&"kept"));
    doc.remove(k.clone());
    assert_eq!(doc.len(), 0);
}

#[test]
fn get_finds_only_present_keys() {
    let mut doc = Document::new();
    let start = doc.start();
    let end = doc.end();
    // the boundary identifiers never expose a value
    assert_eq!(doc.get(&start), None);
    assert_eq!(doc.get(&end), None);
    let k = doc.insert(2, &start, &end, 7u32);
    assert_eq!(doc.get(&k), Some(&7u32));
    doc.remove(k.clone());
    assert_eq!(doc.get(&k), None);
}

#[test]
fn replay_matches_source_order() {
    // a source replica produces three inserts and one removal ...
    let mut source = Document::new();
    let start = source.start();
    let end = source.end();
    let ka = source.insert(1, &start, &end, "a");
    let kb = source.insert(1, &ka, &end, "b");
    let kc = source.insert(1, &kb, &end, "c");
    source.remove(kb.clone());

    // ... and a second replica applies them in another order
    let mut replica = Document::new();
    replica.insert_at(kc.clone(), "c");
    replica.insert_at(kb.clone(), "b");
    replica.remove(kb.clone());
    replica.insert_at(ka.clone(), "a");

    let sv = source.iter();
    let rv = replica.iter();
    assert_eq!(sv.len(), rv.len());
    for i in 0..sv.len() {
        assert_eq!(*sv[i], *rv[i]);
    }
}

#[test]
fn replay_overwrites_value_at_same_key() {
    let mut source = Document::new();
    let start = source.start();
    let end = source.end();
    let k = source.insert(3, &start, &end, "old");

    let mut replica = Document::new();
    replica.insert_at(k.clone(), "old");
    replica.insert_at(k.clone(), "new");
    assert_eq!(replica.len(), 1);
    assert_eq!(replica.get(&k), Some(&"new"));
}

#[test]
fn order_density_between_bounds() {
    // inserting between any two adjacent identifiers yields one that
    // orders strictly between them
    let mut doc = Document::new();
    let mut keys = vec![doc.start(), doc.end()];
    for round in 0..300u64 {
        let i = (round as usize * 7) % (keys.len() - 1);
        let site = round % 3;
        let k = doc.insert(site, &keys[i], &keys[i + 1], round);
        assert!(keys[i] < k, "new key must order above its left bound");
        assert!(k < keys[i + 1], "new key must order below its right bound");
        keys.insert(i + 1, k);
    }
    assert_eq!(doc.len(), 300);
}

#[test]
fn adjacent_bounds_still_leave_room() {
    // hammer one spot: every insert goes between the left boundary and
    // the youngest key, the worst case for gap exhaustion
    let mut doc = Document::new();
    let start = doc.start();
    let mut right = doc.end();
    for round in 0..40u64 {
        let k = doc.insert(1, &start, &right, round);
        assert!(start < k);
        assert!(k < right);
        right = k;
    }
    assert_eq!(doc.len(), 40);
}

#[test]
fn strategy_is_sticky_per_level() {
    // all depth-0 allocations in one document must use the bias chosen
    // the first time, so their indices all fall in the same edge window:
    // low (1 or 2) when the bias favours the front, high (3 or 4) when
    // it favours the back
    let mut doc = Document::new();
    let start = doc.start();
    let end = doc.end();
    let mut low = 0usize;
    let mut high = 0usize;
    for round in 0..50u64 {
        let k = doc.insert(round % 5, &start, &end, round);
        if k.position.len() == 1 {
            let idx = k.position[0].0;
            assert!(1 <= idx && idx < 5);
            if idx < 3 {
                low += 1;
            } else {
                high += 1;
            }
        }
    }
    assert!(low == 0 || high == 0, "one level must keep one bias");
    assert!(low + high > 0);
}
