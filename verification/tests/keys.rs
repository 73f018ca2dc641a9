use lseq::{Document, Id, Key};

#[test]
fn test_equality() {
    let key = Key {
        position: vec![(1, Id::Site(0)), (4, Id::Site(0))],
        clock: 0,
    };
    assert_eq!(key, key);
}

#[test]
fn lib_test_equality() {
    let key = Key {
        position: vec![(1, Id::Site(0)), (4, Id::Site(0))],
        clock: 0,
    };
    assert_eq!(key, key);
}

#[test]
fn key_clone_preserves_path_and_clock() {
    let key = Key {
        position: vec![(2, Id::Site(7)), (3, Id::Sentinel)],
        clock: 9,
    };
    let copy = key.clone();
    assert_eq!(key, copy);
    assert_eq!(copy.clock, 9);
    assert_eq!(copy.position, vec![(2, Id::Site(7)), (3, Id::Sentinel)]);
}

#[test]
fn clock_does_not_affect_equality() {
    let a = Key {
        position: vec![(1, Id::Site(3))],
        clock: 5,
    };
    let b = Key {
        position: vec![(1, Id::Site(3))],
        clock: 11,
    };
    assert_eq!(a, b);
}

#[test]
fn key_order_is_lexicographic() {
    let doc: Document<u8> = Document::new();
    let start = doc.start();
    let end = doc.end();
    assert!(start < end);
    let shallow = Key {
        position: vec![(1, Id::Site(0))],
        clock: 0,
    };
    let deep = Key {
        position: vec![(1, Id::Site(0)), (2, Id::Site(1))],
        clock: 0,
    };
    assert!(start < shallow);
    assert!(shallow < deep);
    assert!(deep < end);
    // a missing segment reads as (0, Sentinel), so extending a path with
    // a positive index moves it later in the order
    let padded = Key {
        position: vec![(1, Id::Site(0)), (0, Id::Sentinel)],
        clock: 3,
    };
    assert!(!(shallow < padded) && !(padded < shallow));
    // the sentinel origin orders before every site
    let site_zero = Key {
        position: vec![(0, Id::Site(0))],
        clock: 0,
    };
    assert!(start < site_zero);
    assert!(site_zero < shallow);
}
