//! The MemTable: an ordered key-value buffer of the latest written records.
//!
//! A deletion leaves a tombstone: the key stays in the buffer with an empty
//! value and a `deleted` mark, and a lookup of it finds nothing. A later
//! write of the key clears the mark. Deleting a key that the buffer does not
//! hold changes nothing.

use bytes::Bytes;
use vstd::prelude::*;

use crate::byte_string::contents;
use crate::config::{MemTableImplSettings, MemTableSettings};
use vector_memtable::VectorMemTable;

pub mod vector_memtable;

verus! {

/// One record of the buffer.
#[derive(Clone, Debug, PartialEq, Eq)]
pub struct MemTableEntry {
    pub key: Bytes,
    /// The value last written; empty once the key is deleted.
    pub value: Bytes,
    /// Set while the entry is a tombstone.
    pub deleted: bool,
}

/// What an entry stands for: its key, and its value unless it is a tombstone.
pub struct EntryView {
    pub key: Seq<u8>,
    pub slot: Option<Seq<u8>>,
}

impl View for MemTableEntry {
    type V = EntryView;

    open spec fn view(&self) -> EntryView {
        EntryView {
            key: contents(self.key),
            slot: if self.deleted {
                None
            } else {
                Some(contents(self.value))
            },
        }
    }
}

/// Number of value bytes that a slot accounts for: none for a tombstone.
pub open spec fn slot_len(slot: Option<Seq<u8>>) -> nat {
    match slot {
        Some(value) => value.len(),
        None => 0,
    }
}

/// The mathematical content of a buffer: for every key it holds, the value
/// or `None` for a tombstone, and the number of bytes accounted for.
pub struct TableView {
    pub slots: Map<Seq<u8>, Option<Seq<u8>>>,
    pub footprint: nat,
}

impl TableView {
    /// The buffer that holds nothing.
    pub open spec fn empty() -> TableView {
        TableView { slots: Map::empty(), footprint: 0 }
    }

    pub open spec fn holds(self, key: Seq<u8>) -> bool {
        self.slots.dom().contains(key)
    }

    /// Upsert. A new key adds its own length and the value's; a key already
    /// held changes the footprint by the difference of the value lengths.
    pub open spec fn put(self, key: Seq<u8>, value: Seq<u8>) -> TableView {
        TableView {
            slots: self.slots.insert(key, Some(value)),
            footprint: if self.holds(key) {
                (self.footprint - slot_len(self.slots[key]) + value.len()) as nat
            } else {
                self.footprint + key.len() + value.len()
            },
        }
    }

    /// Deletion. A key that is held becomes a tombstone and gives up the
    /// bytes of its value; any other key leaves the buffer as it is.
    pub open spec fn delete(self, key: Seq<u8>) -> TableView {
        if self.holds(key) {
            TableView {
                slots: self.slots.insert(key, None),
                footprint: (self.footprint - slot_len(self.slots[key])) as nat,
            }
        } else {
            self
        }
    }

    /// Point lookup: the value of a key that is held and not deleted.
    pub open spec fn get(self, key: Seq<u8>) -> Option<Seq<u8>> {
        if self.holds(key) {
            self.slots[key]
        } else {
            None
        }
    }

    /// The footprint as a `u128` reports it: exact up to the type's maximum.
    pub open spec fn size(self) -> u128 {
        if self.footprint <= u128::MAX {
            self.footprint as u128
        } else {
            u128::MAX
        }
    }
}

/// Whether a lookup's result carries the bytes that the model finds.
pub open spec fn found_is(found: Option<Bytes>, expected: Option<Seq<u8>>) -> bool {
    match expected {
        Some(value) => found is Some && contents(found->Some_0) == value,
        None => found is None,
    }
}

/// The interface of the data structure that stores the MemTable's entries.
pub trait MemTableStore {
    /// The store's own invariant.
    spec fn wf(&self) -> bool;

    /// What the store holds.
    spec fn model(&self) -> TableView;

    fn put(&mut self, key: &[u8], value: &[u8])
        requires
            old(self).wf(),
        ensures
            final(self).wf(),
            final(self).model() == old(self).model().put(key@, value@),
    ;

    fn delete(&mut self, key: &[u8])
        requires
            old(self).wf(),
        ensures
            final(self).wf(),
            final(self).model() == old(self).model().delete(key@),
    ;

    fn get(&self, key: &[u8]) -> (found: Option<Bytes>)
        requires
            self.wf(),
        ensures
            found_is(found, self.model().get(key@)),
    ;

    fn approximate_size(&self) -> (size: u128)
        requires
            self.wf(),
        ensures
            size == self.model().size(),
    ;
}

/// The store behind a MemTable, chosen once when the MemTable is created.
enum Store {
    Vector(VectorMemTable),
}

impl MemTableStore for Store {
    closed spec fn wf(&self) -> bool {
        match self {
            Store::Vector(store) => store.wf(),
        }
    }

    closed spec fn model(&self) -> TableView {
        match self {
            Store::Vector(store) => store.model(),
        }
    }

    fn put(&mut self, key: &[u8], value: &[u8]) {
        match self {
            Store::Vector(store) => store.put(key, value),
        }
    }

    fn delete(&mut self, key: &[u8]) {
        match self {
            Store::Vector(store) => store.delete(key),
        }
    }

    fn get(&self, key: &[u8]) -> (found: Option<Bytes>) {
        match self {
            Store::Vector(store) => store.get(key),
        }
    }

    fn approximate_size(&self) -> (size: u128) {
        match self {
            Store::Vector(store) => store.approximate_size(),
        }
    }
}

/// MemTable holds a sorted list of the latest written records.
///
/// It owns one store, selected by its settings at construction, and is the
/// unit that the rest of the system writes through.
pub struct MemTable {
    store: Store,
    /// General settings of the MemTable and those of its store.
    cfg: MemTableSettings,
}

/// Whether the store that the settings select can be created: its initial
/// capacity has to be a `usize`.
pub open spec fn constructible(cfg: MemTableSettings) -> bool {
    match cfg.table_impl {
        MemTableImplSettings::VectorMemTable(s) => s.initial_vec_size <= usize::MAX,
    }
}

impl View for MemTable {
    type V = TableView;

    closed spec fn view(&self) -> TableView {
        self.store.model()
    }
}

impl MemTable {
    /// The invariant of the store, which every operation keeps.
    pub closed spec fn wf(&self) -> bool {
        self.store.wf()
    }

    /// The settings that the MemTable was created with.
    pub closed spec fn settings(&self) -> MemTableSettings {
        self.cfg
    }

    /// Creates an empty MemTable over the store that `cfg` selects.
    pub fn new(cfg: MemTableSettings) -> (table: Self)
        requires
            constructible(cfg),
        ensures
            table.wf(),
            table@ == TableView::empty(),
            table.settings() == cfg,
    {
        let store = match cfg.table_impl {
            MemTableImplSettings::VectorMemTable(s) => Store::Vector(VectorMemTable::new(s)),
        };
        MemTable { store, cfg }
    }

    /// Looks a key up.
    pub fn get(&self, key: &[u8]) -> (found: Option<Bytes>)
        requires
            self.wf(),
        ensures
            found_is(found, self@.get(key@)),
    {
        self.store.get(key)
    }

    /// Writes a value under a key, replacing what the key held.
    pub fn put(&mut self, key: &[u8], value: &[u8])
        requires
            old(self).wf(),
        ensures
            final(self).wf(),
            final(self)@ == old(self)@.put(key@, value@),
            final(self).settings() == old(self).settings(),
    {
        self.store.put(key, value)
    }

    /// Writes a value under a key: another name for [`MemTable::put`].
    pub fn set(&mut self, key: &[u8], value: &[u8])
        requires
            old(self).wf(),
        ensures
            final(self).wf(),
            final(self)@ == old(self)@.put(key@, value@),
            final(self).settings() == old(self).settings(),
    {
        self.put(key, value)
    }

    /// Deletes a key.
    pub fn delete(&mut self, key: &[u8])
        requires
            old(self).wf(),
        ensures
            final(self).wf(),
            final(self)@ == old(self)@.delete(key@),
            final(self).settings() == old(self).settings(),
    {
        self.store.delete(key)
    }

    /// Number of bytes that the keys and values take, for the decision to
    /// flush; it stops at the largest `u128`.
    pub fn approximate_size(&self) -> (size: u128)
        requires
            self.wf(),
        ensures
            size == self@.size(),
    {
        self.store.approximate_size()
    }
}

} // verus!
