use bitlog::segment::{Segment, next_block_offset};
use bitlog::directory::Directory;
use bitlog::index::Index;
use bitlog::record::{Bytes, RecordIndex};
use bitlog::{Error, BLOCK_BYTES, FLAG_PADDING};

#[test]
fn next_block_offset_values() {
    assert_eq!(next_block_offset(0), 32768);
    assert_eq!(next_block_offset(1), 32768);
    assert_eq!(next_block_offset(32767), 32768);
    assert_eq!(next_block_offset(32768), 65536);
    assert_eq!(next_block_offset(32769), 65536);
}

#[test]
fn segment_write_and_read_back() {
    let mut seg = Segment::create(1);
    let wr = seg.write(b"alpha", b"beta", 0).unwrap();
    assert_eq!(wr.begin_offset, 0);
    assert!(!wr.is_segment_full);
    let rec = seg.read_at(0).unwrap();
    assert_eq!(rec.key.as_slice(), b"alpha");
    assert_eq!(rec.value.as_slice(), b"beta");
    assert_eq!(rec.flag, 0);
}

#[test]
fn segment_immutable_refuses_append() {
    let mut seg = Segment::open_read_only(1, Vec::new());
    assert_eq!(seg.write(b"k", b"v", 0).err(), Some(Error::Immutable));
}

#[test]
fn segment_header_never_crosses_block() {
    // Fill a segment so the next record's header would straddle the 32 KiB
    // block boundary: the writer pads and the record starts on the boundary.
    let mut seg = Segment::create(1);
    let big = vec![7u8; (BLOCK_BYTES - 10 - 2) as usize];
    let wr1 = seg.write(b"a", &big, 0).unwrap();
    assert_eq!(wr1.begin_offset, 0);
    // 1 flag byte + 1 key-length byte + 3 value-length bytes + 1 key byte
    // + value + 4 CRC bytes end a few bytes short of the boundary
    let wr2 = seg.write(b"key-two", b"value-two", 0).unwrap();
    assert_eq!(wr2.begin_offset, BLOCK_BYTES);
    // both records come back from iteration, in order
    let items = seg.iter().unwrap();
    assert_eq!(items.len(), 2);
    assert_eq!(items[0].offset, 0);
    assert_eq!(items[1].offset, BLOCK_BYTES);
    assert_eq!(items[0].key.as_slice(), b"a");
    assert_eq!(items[1].key.as_slice(), b"key-two");
}

#[test]
fn segment_padding_byte_flag() {
    let mut seg = Segment::create(1);
    let big = vec![7u8; (BLOCK_BYTES - 12) as usize];
    seg.write(b"a", &big, 0).unwrap();
    let pad_offset = seg.len() as u64;
    seg.write(b"key-two", b"value-two", 0).unwrap();
    // the first byte of the padding region carries the padding flag
    let rec = seg.read_at(pad_offset).unwrap();
    assert!(rec.flag & FLAG_PADDING != 0);
}

#[test]
fn segment_iter_detects_flipped_byte() {
    // Flipping a byte of a committed record's value makes iteration —
    // the rebuild path — fail with Corrupt.
    let mut seg = Segment::create(1);
    seg.write(b"key", b"value", 0).unwrap();
    let mut bytes = seg.into_contents();
    // offset 3 is the first key byte; corrupt a value byte instead
    let val_off = 3 + 3;
    bytes[val_off] ^= 0x40;
    let seg2 = Segment::open_read_only(1, bytes);
    assert_eq!(seg2.iter().err(), Some(Error::Corrupt));
}

#[test]
fn directory_rotation_indices_increase() {
    // opening over segments 2 and 5 puts the fresh active segment at 6
    let d = Directory::open(vec![(2, Vec::new()), (5, Vec::new())], false, 0).unwrap();
    assert_eq!(d.active_index(), 6);
    // unsorted segment lists are refused
    assert_eq!(
        Directory::open(vec![(5, Vec::new()), (2, Vec::new())], false, 0).err(),
        Some(Error::Invariant)
    );
    // the merge floor pushes the active index past compacted names
    let d = Directory::open(vec![(1, Vec::new())], false, 7).unwrap();
    assert_eq!(d.active_index(), 8);
}

#[test]
fn index_set_get_delete() {
    let mut idx = Index::new();
    assert!(idx.get(b"k").is_none());
    idx.set(RecordIndex {
        key: Bytes::from(b"k".to_vec()),
        segment: 1,
        flag: 0,
        offset: 10,
        value: None,
    })
    .unwrap();
    let got = idx.get(b"k").unwrap();
    assert_eq!(got.segment, 1);
    assert_eq!(got.offset, 10);
    // replacing keeps one entry per key
    idx.set(RecordIndex {
        key: Bytes::from(b"k".to_vec()),
        segment: 2,
        flag: 0,
        offset: 77,
        value: None,
    })
    .unwrap();
    assert_eq!(idx.len(), 1);
    let got = idx.get(b"k").unwrap();
    assert_eq!(got.segment, 2);
    assert_eq!(got.offset, 77);
    idx.delete(&Bytes::from(b"k".to_vec())).unwrap();
    assert!(idx.get(b"k").is_none());
    assert_eq!(idx.len(), 0);
}
