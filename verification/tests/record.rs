use bytes::Bytes;
use saloon::config::MemTableSettings;
use saloon::log::mem_table::MemTable;
use saloon::log::record::{decode, encode_delete, encode_put, Operation};

#[test]
fn encode_put_layout() {
    assert_eq!(
        encode_put(b"ab", b"xyz"),
        Some(vec![0, 0, 0, 0, 2, b'a', b'b', b'x', b'y', b'z'])
    );
    assert_eq!(encode_put(b"", b""), Some(vec![0, 0, 0, 0, 0]));
}

#[test]
fn encode_delete_layout() {
    assert_eq!(encode_delete(b"ab"), Some(vec![1, 0, 0, 0, 2, b'a', b'b']));
}

#[test]
fn encode_key_length_is_big_endian() {
    let key = vec![7u8; 0x0102];
    let record = encode_put(&key, b"v").unwrap();
    assert_eq!(&record[..5], &[0, 0, 0, 1, 2]);
    assert_eq!(record.len(), 5 + 0x0102 + 1);
}

#[test]
fn decode_put() {
    let record = [0, 0, 0, 0, 1, b'k', b'v', b'w'];
    match decode(&record) {
        Some(Operation::Put { key, value }) => {
            assert_eq!(key, b"k");
            assert_eq!(value, b"vw");
        }
        other => panic!("unexpected {:?}", other),
    }
}

#[test]
fn decode_delete() {
    let record = [1, 0, 0, 0, 2, b'k', b'e'];
    match decode(&record) {
        Some(Operation::Delete { key }) => assert_eq!(key, b"ke"),
        other => panic!("unexpected {:?}", other),
    }
}

#[test]
fn decode_round_trip() {
    let record = encode_put(b"key", b"value").unwrap();
    match decode(&record) {
        Some(Operation::Put { key, value }) => {
            assert_eq!(key, b"key");
            assert_eq!(value, b"value");
        }
        other => panic!("unexpected {:?}", other),
    }
    let record = encode_delete(b"key").unwrap();
    match decode(&record) {
        Some(Operation::Delete { key }) => assert_eq!(key, b"key"),
        other => panic!("unexpected {:?}", other),
    }
}

#[test]
fn decode_rejects_what_is_no_record() {
    assert!(decode(&[]).is_none());
    assert!(decode(&[0, 0, 0, 0]).is_none());
    // key longer than the record
    assert!(decode(&[0, 0, 0, 0, 3, b'a', b'b']).is_none());
    assert!(decode(&[0, 1, 0, 0, 0]).is_none());
    // unknown tag
    assert!(decode(&[2, 0, 0, 0, 1, b'a']).is_none());
    // a delete with something after its key
    assert!(decode(&[1, 0, 0, 0, 1, b'a', b'x']).is_none());
}

#[test]
fn apply_record_puts_and_deletes() {
    let mut table = MemTable::new(MemTableSettings::default());
    table.apply_record(&encode_put(b"a", b"1").unwrap());
    assert_eq!(table.get(b"a"), Some(Bytes::from_static(b"1")));
    table.apply_record(&encode_put(b"a", b"22").unwrap());
    assert_eq!(table.get(b"a"), Some(Bytes::from_static(b"22")));
    table.apply_record(&encode_delete(b"a").unwrap());
    assert_eq!(table.get(b"a"), None);
}

#[test]
fn apply_record_skips_what_is_no_record() {
    let mut table = MemTable::new(MemTableSettings::default());
    table.put(b"a", b"1");
    table.apply_record(&[9, 9, 9]);
    table.apply_record(&[]);
    assert_eq!(table.get(b"a"), Some(Bytes::from_static(b"1")));
    assert_eq!(table.approximate_size(), 2);
}
