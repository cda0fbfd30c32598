use bitlog::database::{Database, DirImage, RootImage, Options};
use bitlog::Error;

fn fresh_root() -> RootImage {
    RootImage {
        data: DirImage { segs: Vec::new(), hint: None, finish: None },
        merged: None,
    }
}

fn open_fresh() -> Database {
    Database::open(fresh_root(), Options::default()).unwrap()
}

fn reopen(db: &Database) -> Database {
    Database::open(db.persist(), Options::default()).unwrap()
}

fn seg_bytes(root: &RootImage) -> usize {
    let mut total: usize = 0;
    for (_, c) in root.data.segs.iter() {
        total += c.len();
    }
    total
}

/// A small deterministic byte generator for bulk values.
struct Lcg {
    state: u64,
}

impl Lcg {
    fn new(seed: u64) -> Self {
        Lcg { state: seed }
    }

    fn next_byte(&mut self) -> u8 {
        self.state = self.state.wrapping_mul(6364136223846793005).wrapping_add(1442695040888963407);
        (self.state >> 33) as u8
    }

    fn bytes(&mut self, n: usize) -> Vec<u8> {
        let mut v = Vec::with_capacity(n);
        for _ in 0..n {
            v.push(self.next_byte());
        }
        v
    }
}

#[test]
fn small_round_trip() {
    let mut db = open_fresh();
    db.write(b"k1", b"v1").unwrap();
    db.write(b"k2", b"v2").unwrap();
    assert_eq!(db.read(b"k1").unwrap().unwrap().as_slice(), b"v1");
    assert_eq!(db.read(b"k2").unwrap().unwrap().as_slice(), b"v2");
    assert!(db.read(b"k3").unwrap().is_none());
}

#[test]
fn overwrite_returns_latest() {
    let mut db = open_fresh();
    db.write(b"k", b"a").unwrap();
    db.write(b"k", b"bb").unwrap();
    assert_eq!(db.read(b"k").unwrap().unwrap().as_slice(), b"bb");
}

#[test]
fn delete_then_reopen_stays_absent() {
    let mut db = open_fresh();
    db.write(b"k", b"v").unwrap();
    db.delete(b"k").unwrap();
    assert!(db.read(b"k").unwrap().is_none());
    let db2 = reopen(&db);
    assert!(db2.read(b"k").unwrap().is_none());
}

#[test]
fn restart_preserves_bulk_writes() {
    // ten thousand keys with pseudo-random 100-byte values survive a clean
    // close and reopen byte for byte
    let mut rng = Lcg::new(42);
    let mut cases: Vec<(String, Vec<u8>)> = Vec::new();
    for i in 0..10000 {
        cases.push((format!("{:016}", i), rng.bytes(100)));
    }
    let mut db = open_fresh();
    for (key, value) in cases.iter() {
        db.write(key.as_bytes(), value.as_slice()).unwrap();
    }
    let db2 = reopen(&db);
    for (key, value) in cases.iter() {
        let got = db2.read(key.as_bytes()).unwrap();
        if got.is_none() {
            panic!("record not found");
        }
        if got.unwrap().as_slice() != value.as_slice() {
            panic!("read returns wrong result");
        }
    }
}

#[test]
fn test_merge() {
    let mut cases: Vec<(String, String)> = Vec::new();
    for i in 0..1000 {
        cases.push((format!("{:016}", i), format!("v{:016}", i)));
    }
    let mut db = open_fresh();
    for (key, value) in cases.iter() {
        db.write(key.as_bytes(), value.as_bytes()).unwrap();
    }
    for (key, value) in cases.iter() {
        db.write(key.as_bytes(), value.as_bytes()).unwrap();
    }
    db.merge().unwrap();
    let db2 = Database::open(db.persist(), Options::default()).unwrap();
    for (key, value) in cases.iter() {
        let result = db2.read(key.as_bytes()).unwrap();
        if result.is_none() {
            panic!("record not found");
        }
        if result.unwrap().as_slice() != value.as_bytes() {
            panic!("read returns wrong result");
        }
    }
}

#[test]
fn test_read_write_delete() {
    let mut cases: Vec<(String, String)> = Vec::new();
    for i in 0..10000 {
        cases.push((format!("{:016}", i), format!("v{:016}", i)));
    }
    {
        let mut database = open_fresh();
        for (key, value) in cases.iter() {
            database.write(key.as_bytes(), value.as_bytes()).unwrap();
        }
        for (key, value) in cases.iter() {
            let result = database.read(key.as_bytes()).unwrap();
            if result.is_none() {
                panic!("record not found");
            }
            if result.unwrap().as_slice() != value.as_bytes() {
                panic!("read returns wrong result");
            }
        }
        let mut database = reopen(&database);
        for (key, value) in cases.iter() {
            let result = database.read(key.as_bytes()).unwrap();
            if result.is_none() {
                panic!("record not found");
            }
            if result.unwrap().as_slice() != value.as_bytes() {
                panic!("read returns wrong result");
            }
        }
        for (key, _) in cases.iter() {
            database.delete(key.as_bytes()).unwrap();
        }
        for (key, _) in cases.iter() {
            let result = database.read(key.as_bytes()).unwrap();
            if !result.is_none() {
                panic!("record should be none");
            }
        }
        let database = reopen(&database);
        for (key, _) in cases.iter() {
            let result = database.read(key.as_bytes()).unwrap();
            if !result.is_none() {
                panic!("record should be none");
            }
        }
    }
}

#[test]
fn merge_compacts_and_leaves_hint() {
    // every key written twice: after merge and reopen the data directory is
    // strictly smaller and carries the hint file and merge-finish marker
    let mut db = open_fresh();
    for i in 0..1000u32 {
        let key = format!("{:016}", i);
        let value = format!("v{:016}", i);
        db.write(key.as_bytes(), value.as_bytes()).unwrap();
        db.write(key.as_bytes(), value.as_bytes()).unwrap();
    }
    let before = seg_bytes(&db.persist());
    db.merge().unwrap();
    let db2 = Database::open(db.persist(), Options::default()).unwrap();
    let after_root = db2.persist();
    let after = seg_bytes(&after_root);
    assert!(after < before);
    assert!(after_root.data.hint.is_some());
    assert!(after_root.data.finish.is_some());
    for i in 0..1000u32 {
        let key = format!("{:016}", i);
        let value = format!("v{:016}", i);
        assert_eq!(db2.read(key.as_bytes()).unwrap().unwrap().as_slice(), value.as_bytes());
    }
}

#[test]
fn merge_after_delete_stays_deleted() {
    // a key deleted before the merge does not come back after it
    let mut db = open_fresh();
    db.write(b"keep", b"1").unwrap();
    db.write(b"drop", b"2").unwrap();
    db.delete(b"drop").unwrap();
    db.merge().unwrap();
    let db2 = Database::open(db.persist(), Options::default()).unwrap();
    assert_eq!(db2.read(b"keep").unwrap().unwrap().as_slice(), b"1");
    assert!(db2.read(b"drop").unwrap().is_none());
}

#[test]
fn merge_twice_keeps_mapping() {
    let mut db = open_fresh();
    for i in 0..50u32 {
        let key = format!("{:016}", i);
        db.write(key.as_bytes(), b"first").unwrap();
        db.write(key.as_bytes(), b"second").unwrap();
    }
    db.merge().unwrap();
    let mut db2 = Database::open(db.persist(), Options::default()).unwrap();
    db2.merge().unwrap();
    let db3 = Database::open(db2.persist(), Options::default()).unwrap();
    for i in 0..50u32 {
        let key = format!("{:016}", i);
        assert_eq!(db3.read(key.as_bytes()).unwrap().unwrap().as_slice(), b"second");
    }
}

#[test]
fn crash_after_merge_before_handoff() {
    // the staging directory with its merge-finish marker survives a crash:
    // the next open absorbs it and every key stays readable
    let mut db = open_fresh();
    for i in 0..100u32 {
        let key = format!("{:016}", i);
        db.write(key.as_bytes(), key.as_bytes()).unwrap();
    }
    db.merge().unwrap();
    let crashed = db.persist();
    assert!(crashed.merged.is_some());
    assert!(crashed.merged.as_ref().unwrap().finish.is_some());
    let db2 = Database::open(crashed, Options::default()).unwrap();
    for i in 0..100u32 {
        let key = format!("{:016}", i);
        assert_eq!(db2.read(key.as_bytes()).unwrap().unwrap().as_slice(), key.as_bytes());
    }
    // the staging directory has been absorbed
    let after = db2.persist();
    assert!(after.merged.is_none());
    assert!(after.data.hint.is_some());
}

#[test]
fn interrupted_merge_is_discarded() {
    // a staging directory without the merge-finish marker is dropped
    let mut db = open_fresh();
    db.write(b"k", b"v").unwrap();
    let mut root = db.persist();
    root.merged = Some(DirImage { segs: vec![(1, b"garbage".to_vec())], hint: None, finish: None });
    let db2 = Database::open(root, Options::default()).unwrap();
    assert_eq!(db2.read(b"k").unwrap().unwrap().as_slice(), b"v");
    assert!(db2.persist().merged.is_none());
}

#[test]
fn flipped_byte_fails_rebuild() {
    // flipping one byte of a committed record's key or value makes the next
    // open fail with Corrupt
    let mut db = open_fresh();
    db.write(b"key", b"value").unwrap();
    let mut root = db.persist();
    // corrupt a byte inside the record's value region of the only segment
    let bytes = &mut root.data.segs[0].1;
    let val_off = 3 + 3;
    bytes[val_off] ^= 0x01;
    match Database::open(root, Options::default()) {
        Err(Error::Corrupt) => {},
        other => panic!("expected corrupt rebuild, got {:?}", other.map(|_| ())),
    }
}

#[test]
fn hint_without_finish_marker_fails() {
    let mut db = open_fresh();
    db.write(b"k", b"v").unwrap();
    let mut root = db.persist();
    root.data.hint = Some(Vec::new());
    root.data.finish = None;
    match Database::open(root, Options::default()) {
        Err(Error::Io) => {},
        other => panic!("expected missing marker error, got {:?}", other.map(|_| ())),
    }
}

#[test]
fn options_toggle_mmap() {
    let o = Options::default();
    let o = o.mmap(false);
    let mut db = Database::open(fresh_root(), o).unwrap();
    db.write(b"k", b"v").unwrap();
    assert_eq!(db.read(b"k").unwrap().unwrap().as_slice(), b"v");
}
