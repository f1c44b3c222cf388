use kvlog::codec::{get_u16_le, get_u32_le, get_u64_le, put_u16_le, put_u32_le, put_u64_le};
use kvlog::data::{Index, Record, Recordfile};

#[test]
fn little_endian_integers_round_trip() {
    let mut buf: Vec<u8> = Vec::new();
    put_u16_le(&mut buf, 0xbeef);
    put_u32_le(&mut buf, 0xdeadbeef);
    put_u64_le(&mut buf, 0x0123456789abcdef);
    assert_eq!(buf.len(), 14);
    assert_eq!(buf[0], 0xef);
    assert_eq!(buf[1], 0xbe);
    assert_eq!(get_u16_le(&buf, 0), 0xbeef);
    assert_eq!(get_u32_le(&buf, 2), 0xdeadbeef);
    assert_eq!(get_u64_le(&buf, 6), 0x0123456789abcdef);
}

#[test]
fn record_encodes_and_decodes() {
    let rec = Record::new(b"key".to_vec(), b"value".to_vec(), 42);
    assert_eq!(rec.size(), 2 + 4 + 8 + 3 + 5);
    let bytes = rec.to_bytes();
    // padded to the next 16-byte boundary
    assert_eq!(bytes.len(), 32);
    let back = Record::read_from(&bytes, 0).unwrap().unwrap();
    assert_eq!(back.key, b"key".to_vec());
    assert_eq!(back.value, b"value".to_vec());
    assert_eq!(back.time, 42);
}

#[test]
fn record_layout_is_fixed() {
    let rec = Record::new(vec![0xaa], vec![0xbb, 0xcc], 0x0102030405060708);
    let bytes = rec.to_bytes();
    assert_eq!(bytes[0], 1);
    assert_eq!(bytes[1], 0);
    assert_eq!(bytes[2], 2);
    assert_eq!(bytes[3], 0);
    assert_eq!(bytes[4], 0);
    assert_eq!(bytes[5], 0);
    assert_eq!(bytes[6], 0x08);
    assert_eq!(bytes[13], 0x01);
    assert_eq!(bytes[14], 0xaa);
    assert_eq!(bytes[15], 0xbb);
    assert_eq!(bytes[16], 0xcc);
    // zero padding to the boundary
    assert_eq!(bytes.len(), 32);
    assert_eq!(bytes[17], 0);
    assert_eq!(bytes[31], 0);
}

#[test]
fn zero_keysize_reads_as_a_gap() {
    let gap = vec![0u8; 16];
    assert!(Record::read_from(&gap, 0).unwrap().is_none());
}

#[test]
fn short_buffers_are_refused() {
    let rec = Record::new(b"key".to_vec(), b"value".to_vec(), 42);
    let bytes = rec.to_bytes();
    let truncated: Vec<u8> = bytes[..10].to_vec();
    assert!(Record::read_from(&truncated, 0).is_err());
    let tiny: Vec<u8> = vec![7u8];
    assert!(Record::read_from(&tiny, 0).is_err());
}

#[test]
fn index_entry_round_trips_in_eighteen_bytes() {
    let rec = Record::new(b"k".to_vec(), b"vv".to_vec(), 7);
    let idx = Index::new(&rec, 160);
    assert_eq!(idx.size(), 18);
    let bytes = idx.to_bytes();
    assert_eq!(bytes.len(), 18);
    let back = Index::read_from(&bytes, 0).unwrap().unwrap();
    assert_eq!(back, idx);
    assert_eq!(back.keysize, 1);
    assert_eq!(back.valuesize, 2);
    assert_eq!(back.offset, 160);
    assert_eq!(back.time, 7);
}

#[test]
fn zeroed_index_row_is_an_unused_slot() {
    let row = vec![0u8; 18];
    assert_eq!(Index::read_from(&row, 0).unwrap(), None);
}

#[test]
fn segment_scan_skips_gaps_and_collects_records() {
    let a = Record::new(b"a".to_vec(), b"1".to_vec(), 1);
    let b = Record::new(b"b".to_vec(), b"22".to_vec(), 2);
    let mut image: Vec<u8> = Vec::new();
    a.write_bytes(&mut image);
    b.write_bytes(&mut image);
    // overwrite the first record with a zeroed gap of the same allocation
    let alen = a.alloc_size();
    let mut gapped = image.clone();
    for i in 0..alen {
        gapped[i] = 0;
    }
    let rf = Recordfile::read_from(&gapped, 9, gapped.len() as u32).unwrap();
    assert_eq!(rf.fileid, 9);
    assert_eq!(rf.records.len(), 1);
    assert_eq!(rf.records[0].key, b"b".to_vec());
    assert_eq!(rf.records[0].value, b"22".to_vec());
    assert_eq!(rf.size, b.alloc_size() as u64);

    let rf2 = Recordfile::read_from(&image, 9, image.len() as u32).unwrap();
    assert_eq!(rf2.records.len(), 2);
    assert_eq!(rf2.records[0].key, b"a".to_vec());
    assert_eq!(rf2.records[1].key, b"b".to_vec());
}
