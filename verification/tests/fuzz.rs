use lseq::Document;

#[test]
fn test_fuzz() {
    let mut doc: Document<u8> = Document::new();
    let mut keys = vec![doc.start(), doc.end()];
    let mut result: Vec<u8> = vec![];

    for _ in 0..300 {
        if keys.len() <= 2 || rand::random::<bool>() {
            // insertion between a random adjacent pair
            let value: u8 = rand::random();
            let i = rand::random_range(0..keys.len() - 1);
            let site = if rand::random::<bool>() { 0 } else { 1 };
            let new_key = doc.insert(site, &keys[i], &keys[i + 1], value);
            keys.insert(i + 1, new_key);
            result.insert(i, value);
        } else {
            // removal of a random element
            let i = rand::random_range(1..keys.len() - 1);
            let key = keys.remove(i);
            doc.remove(key);
            result.remove(i - 1);
        }
    }

    let values = doc.iter();
    assert_eq!(values.len(), result.len());
    for i in 0..result.len() {
        assert_eq!(*values[i], result[i]);
    }
}

#[test]
fn lib_test_fuzz() {
    let mut doc: Document<u8> = Document::new();
    let mut keys = vec![doc.start(), doc.end()];
    let mut result: Vec<u8> = vec![];

    for _ in 0..300 {
        if keys.len() <= 2 || rand::random::<bool>() {
            let value: u8 = rand::random();
            let i = rand::random_range(0..keys.len() - 1);
            let site = if rand::random::<bool>() { 0 } else { 1 };
            let new_key = doc.insert(site, &keys[i], &keys[i + 1], value);
            keys.insert(i + 1, new_key);
            result.insert(i, value);
        } else {
            let i = rand::random_range(1..keys.len() - 1);
            let key = keys.remove(i);
            doc.remove(key);
            result.remove(i - 1);
        }
    }

    let values = doc.iter();
    assert_eq!(values.len(), result.len());
    for i in 0..result.len() {
        assert_eq!(*values[i], result[i]);
    }
}

#[test]
fn fuzz_matches_mirror_after_every_operation() {
    let mut doc: Document<u8> = Document::new();
    let mut keys = vec![doc.start(), doc.end()];
    let mut result: Vec<u8> = vec![];

    for round in 0..300 {
        if keys.len() <= 2 || round % 3 != 0 {
            let value = (round % 251) as u8;
            let i = (round * 13) % (keys.len() - 1);
            let site = (round % 4) as u64;
            let new_key = doc.insert(site, &keys[i], &keys[i + 1], value);
            keys.insert(i + 1, new_key);
            result.insert(i, value);
        } else {
            let i = 1 + (round * 7) % (keys.len() - 2);
            let key = keys.remove(i);
            doc.remove(key);
            result.remove(i - 1);
        }
        let values = doc.iter();
        assert_eq!(values.len(), result.len());
        for j in 0..result.len() {
            assert_eq!(*values[j], result[j]);
        }
    }
}
