use bytes::Bytes;
use saloon::config::{MemTableImplSettings, MemTableSettings, VectorMemTableSettings};
use saloon::log::mem_table::vector_memtable::VectorMemTable;
use saloon::log::mem_table::{MemTable, MemTableEntry, MemTableStore};

fn table() -> MemTable {
    MemTable::new(MemTableSettings::default())
}

fn value(bytes: &'static [u8]) -> Option<Bytes> {
    Some(Bytes::from_static(bytes))
}

#[test]
fn new_table_is_empty() {
    let table = table();
    assert_eq!(table.approximate_size(), 0);
    assert_eq!(table.get(b"a"), None);
}

#[test]
fn new_table_with_small_capacity() {
    let mut table = MemTable::new(MemTableSettings {
        table_impl: MemTableImplSettings::VectorMemTable(VectorMemTableSettings {
            initial_vec_size: 0,
        }),
        write_buffer_size_in_mb: 4,
    });
    table.put(b"k", b"v");
    assert_eq!(table.get(b"k"), value(b"v"));
}

#[test]
fn put_then_get_returns_value() {
    let mut table = table();
    table.put(b"a", b"1");
    assert_eq!(table.get(b"a"), value(b"1"));
    assert_eq!(table.get(b"b"), None);
    assert_eq!(table.get(b""), None);
}

#[test]
fn set_is_put() {
    let mut table = table();
    table.set(b"a", b"1");
    assert_eq!(table.get(b"a"), value(b"1"));
    assert_eq!(table.approximate_size(), 2);
    table.set(b"a", b"333");
    assert_eq!(table.get(b"a"), value(b"333"));
    assert_eq!(table.approximate_size(), 4);
}

#[test]
fn put_new_key_adds_key_and_value_length() {
    let mut table = table();
    table.put(b"key", b"value");
    assert_eq!(table.approximate_size(), 8);
    table.put(b"k2", b"");
    assert_eq!(table.approximate_size(), 10);
    table.put(b"", b"x");
    assert_eq!(table.approximate_size(), 11);
}

#[test]
fn update_changes_size_by_value_delta() {
    let mut table = table();
    table.put(b"a", b"1");
    let before = table.approximate_size();
    assert_eq!(before, 2);
    table.put(b"a", b"22");
    assert_eq!(table.approximate_size(), before + 1);
    assert_eq!(table.get(b"a"), value(b"22"));
}

#[test]
fn update_with_shorter_value_shrinks_size() {
    let mut table = table();
    table.put(b"a", b"12345");
    assert_eq!(table.approximate_size(), 6);
    table.put(b"a", b"1");
    assert_eq!(table.approximate_size(), 2);
    assert_eq!(table.get(b"a"), value(b"1"));
}

#[test]
fn delete_gives_up_value_bytes_and_hides_key() {
    let mut table = table();
    table.put(b"a", b"123");
    table.put(b"b", b"4");
    assert_eq!(table.approximate_size(), 6);
    table.delete(b"a");
    assert_eq!(table.approximate_size(), 3);
    assert_eq!(table.get(b"a"), None);
    assert_eq!(table.get(b"b"), value(b"4"));
}

#[test]
fn delete_of_absent_key_changes_nothing() {
    let mut table = table();
    table.put(b"a", b"1");
    table.delete(b"zzz");
    assert_eq!(table.approximate_size(), 2);
    assert_eq!(table.get(b"a"), value(b"1"));
    assert_eq!(table.get(b"zzz"), None);
}

#[test]
fn delete_twice_counts_once() {
    let mut table = table();
    table.put(b"a", b"123");
    table.delete(b"a");
    table.delete(b"a");
    assert_eq!(table.approximate_size(), 1);
    assert_eq!(table.get(b"a"), None);
}

#[test]
fn put_after_delete_revives_key() {
    let mut table = table();
    table.put(b"a", b"123");
    table.delete(b"a");
    table.put(b"a", b"45");
    assert_eq!(table.get(b"a"), value(b"45"));
    assert_eq!(table.approximate_size(), 3);
}

#[test]
fn empty_value_is_not_a_tombstone() {
    let mut table = table();
    table.put(b"a", b"");
    assert_eq!(table.get(b"a"), Some(Bytes::new()));
    table.delete(b"a");
    assert_eq!(table.get(b"a"), None);
}

#[test]
fn keys_are_found_whatever_the_insertion_order() {
    let mut table = table();
    let keys: [&[u8]; 7] = [b"m", b"a", b"z", b"mm", b"", b"b", &[0xff]];
    for (i, key) in keys.iter().enumerate() {
        table.put(key, &[i as u8]);
    }
    for (i, key) in keys.iter().enumerate() {
        assert_eq!(table.get(key), Some(Bytes::copy_from_slice(&[i as u8])));
    }
    assert_eq!(table.get(b"n"), None);
    assert_eq!(table.approximate_size(), 7 + 7);
}

#[test]
fn many_keys_keep_their_values() {
    let mut table = table();
    for i in 0..200u32 {
        let key = (i.wrapping_mul(7919) % 1000).to_be_bytes();
        table.put(&key, &i.to_le_bytes());
    }
    for i in 0..200u32 {
        let key = (i.wrapping_mul(7919) % 1000).to_be_bytes();
        assert_eq!(table.get(&key), Some(Bytes::copy_from_slice(&i.to_le_bytes())));
    }
    assert_eq!(table.approximate_size(), 200 * 8);
}

#[test]
fn vector_store_through_the_trait() {
    let mut store = VectorMemTable::new(VectorMemTableSettings { initial_vec_size: 2 });
    assert_eq!(store.approximate_size(), 0);
    store.put(b"b", b"2");
    store.put(b"a", b"1");
    store.put(b"c", b"3");
    assert_eq!(store.get(b"a"), value(b"1"));
    assert_eq!(store.get(b"b"), value(b"2"));
    assert_eq!(store.get(b"c"), value(b"3"));
    assert_eq!(store.approximate_size(), 6);
    store.delete(b"b");
    assert_eq!(store.get(b"b"), None);
    assert_eq!(store.approximate_size(), 5);
}

#[test]
fn entry_holds_key_value_and_mark() {
    let entry = MemTableEntry {
        key: Bytes::from_static(b"k"),
        value: Bytes::from_static(b"v"),
        deleted: false,
    };
    let copy = entry.clone();
    assert_eq!(copy, entry);
    assert_eq!(copy.key.as_ref(), b"k");
}
