//! The sorted-array store: entries in key order, found by binary search.

use bytes::Bytes;
use vstd::prelude::*;

use super::{slot_len, EntryView, MemTableEntry, MemTableStore, TableView};
use crate::byte_string::{
    compare, contents, lemma_precedes_irreflexive, lemma_precedes_transitive, precedes, KeyOrder,
};
use crate::config::VectorMemTableSettings;

verus! {

/// Sum of a sequence of lengths.
pub open spec fn total(lens: Seq<nat>) -> nat
    decreases lens.len(),
{
    if lens.len() == 0 {
        0
    } else {
        total(lens.drop_last()) + lens.last()
    }
}

proof fn lemma_total_insert(lens: Seq<nat>, at: int, len: nat)
    requires
        0 <= at <= lens.len(),
    ensures
        total(lens.insert(at, len)) == total(lens) + len,
    decreases lens.len(),
{
    let grown = lens.insert(at, len);
    if at == lens.len() {
        assert(grown.drop_last() =~= lens);
    } else {
        assert(grown.drop_last() =~= lens.drop_last().insert(at, len));
        lemma_total_insert(lens.drop_last(), at, len);
    }
}

proof fn lemma_total_update(lens: Seq<nat>, at: int, len: nat)
    requires
        0 <= at < lens.len(),
    ensures
        total(lens.update(at, len)) + lens[at] == total(lens) + len,
    decreases lens.len(),
{
    let changed = lens.update(at, len);
    if at == lens.len() - 1 {
        assert(changed.drop_last() =~= lens.drop_last());
    } else {
        assert(changed.drop_last() =~= lens.drop_last().update(at, len));
        lemma_total_update(lens.drop_last(), at, len);
    }
}

proof fn lemma_total_bound(lens: Seq<nat>, bound: nat)
    requires
        forall|i: int| 0 <= i < lens.len() ==> lens[i] <= bound,
    ensures
        total(lens) <= lens.len() * bound,
    decreases lens.len(),
{
    if lens.len() > 0 {
        lemma_total_bound(lens.drop_last(), bound);
        assert(lens.len() * bound == (lens.len() - 1) * bound + bound) by (nonlinear_arith);
    }
}

/// As many lengths as a vector can hold, each one that of a slice, add up
/// to less than a `u128` can hold.
proof fn lemma_total_fits(lens: Seq<nat>)
    requires
        lens.len() <= usize::MAX,
        forall|i: int| 0 <= i < lens.len() ==> lens[i] <= usize::MAX,
    ensures
        total(lens) <= u128::MAX,
{
    lemma_total_bound(lens, usize::MAX as nat);
    assert(lens.len() * (usize::MAX as nat) <= 0xFFFF_FFFF_FFFF_FFFF * 0xFFFF_FFFF_FFFF_FFFF)
        by (nonlinear_arith)
        requires
            lens.len() <= 0xFFFF_FFFF_FFFF_FFFF,
            (usize::MAX as nat) <= 0xFFFF_FFFF_FFFF_FFFF,
    ;
}

/// Lengths of the keys, in the order of the entries.
pub open spec fn key_lens(entries: Seq<EntryView>) -> Seq<nat> {
    entries.map_values(|e: EntryView| e.key.len())
}

/// Lengths of the values, in the order of the entries.
pub open spec fn value_lens(entries: Seq<EntryView>) -> Seq<nat> {
    entries.map_values(|e: EntryView| slot_len(e.slot))
}

/// Whether the keys grow strictly from each entry to the next.
pub open spec fn sorted(entries: Seq<EntryView>) -> bool {
    forall|i: int, j: int|
        0 <= i < j < entries.len() ==> precedes(#[trigger] entries[i].key, #[trigger] entries[j].key)
}

/// Whether some entry has the key.
pub open spec fn has_key(entries: Seq<EntryView>, key: Seq<u8>) -> bool {
    exists|i: int| 0 <= i < entries.len() && #[trigger] entries[i].key == key
}

/// The place of an entry that has the key.
pub open spec fn index_of(entries: Seq<EntryView>, key: Seq<u8>) -> int {
    choose|i: int| 0 <= i < entries.len() && #[trigger] entries[i].key == key
}

/// The map from each key to what its entry holds.
pub open spec fn slots_of(entries: Seq<EntryView>) -> Map<Seq<u8>, Option<Seq<u8>>> {
    Map::new(
        |key: Seq<u8>| has_key(entries, key),
        |key: Seq<u8>| entries[index_of(entries, key)].slot,
    )
}

/// Where a key belongs among sorted entries: everything before `at` sorts
/// before the key and everything from `at` on sorts after it.
pub open spec fn gap_at(entries: Seq<EntryView>, key: Seq<u8>, at: int) -> bool {
    &&& 0 <= at <= entries.len()
    &&& forall|j: int| 0 <= j < at ==> precedes(#[trigger] entries[j].key, key)
    &&& forall|j: int| at <= j < entries.len() ==> precedes(key, #[trigger] entries[j].key)
}

proof fn lemma_sorted_keys_unique(entries: Seq<EntryView>, i: int, j: int)
    requires
        sorted(entries),
        0 <= i < entries.len(),
        0 <= j < entries.len(),
        entries[i].key == entries[j].key,
    ensures
        i == j,
{
    lemma_precedes_irreflexive(entries[i].key);
}

proof fn lemma_index_of(entries: Seq<EntryView>, at: int)
    requires
        sorted(entries),
        0 <= at < entries.len(),
    ensures
        has_key(entries, entries[at].key),
        index_of(entries, entries[at].key) == at,
{
    lemma_sorted_keys_unique(entries, index_of(entries, entries[at].key), at);
}

proof fn lemma_gap_excludes(entries: Seq<EntryView>, key: Seq<u8>, at: int)
    requires
        gap_at(entries, key, at),
    ensures
        !has_key(entries, key),
{
    lemma_precedes_irreflexive(key);
}

proof fn lemma_update_slots(entries: Seq<EntryView>, at: int, slot: Option<Seq<u8>>)
    requires
        sorted(entries),
        0 <= at < entries.len(),
    ensures
        sorted(entries.update(at, EntryView { key: entries[at].key, slot })),
        slots_of(entries.update(at, EntryView { key: entries[at].key, slot })) == slots_of(
            entries,
        ).insert(entries[at].key, slot),
{
    let key = entries[at].key;
    let changed = entries.update(at, EntryView { key, slot });
    assert(sorted(changed)) by {
        assert forall|i: int, j: int| 0 <= i < j < changed.len() implies precedes(
            #[trigger] changed[i].key,
            #[trigger] changed[j].key,
        ) by {
            assert(changed[i].key == entries[i].key);
            assert(changed[j].key == entries[j].key);
        }
    }
    let before = slots_of(entries);
    let after = slots_of(changed);
    assert forall|k: Seq<u8>| has_key(changed, k) <==> has_key(entries, k) by {
        if has_key(changed, k) {
            let i = index_of(changed, k);
            assert(entries[i].key == k);
        }
        if has_key(entries, k) {
            let i = index_of(entries, k);
            assert(changed[i].key == k);
        }
    }
    lemma_index_of(entries, at);
    assert forall|k: Seq<u8>| has_key(changed, k) implies #[trigger] after[k] == before.insert(
        key,
        slot,
    )[k] by {
        let i = index_of(changed, k);
        assert(entries[i].key == k);
        lemma_index_of(entries, i);
        lemma_index_of(changed, i);
    }
    assert(after =~= before.insert(key, slot));
}

proof fn lemma_insert_slots(entries: Seq<EntryView>, at: int, entry: EntryView)
    requires
        sorted(entries),
        gap_at(entries, entry.key, at),
    ensures
        sorted(entries.insert(at, entry)),
        slots_of(entries.insert(at, entry)) == slots_of(entries).insert(entry.key, entry.slot),
{
    let grown = entries.insert(at, entry);
    assert(sorted(grown)) by {
        assert forall|i: int, j: int| 0 <= i < j < grown.len() implies precedes(
            #[trigger] grown[i].key,
            #[trigger] grown[j].key,
        ) by {
            if i < at && j > at {
                assert(grown[i].key == entries[i].key);
                assert(grown[j].key == entries[j - 1].key);
            } else if i < at && j < at {
                assert(grown[i].key == entries[i].key);
                assert(grown[j].key == entries[j].key);
            } else if i > at {
                assert(grown[i].key == entries[i - 1].key);
                assert(grown[j].key == entries[j - 1].key);
            } else if i == at {
                assert(grown[j].key == entries[j - 1].key);
            } else {
                assert(grown[i].key == entries[i].key);
            }
        }
    }
    lemma_gap_excludes(entries, entry.key, at);
    let before = slots_of(entries);
    let after = slots_of(grown);
    assert(grown[at] == entry);
    assert forall|k: Seq<u8>| has_key(grown, k) <==> (has_key(entries, k) || k == entry.key) by {
        if has_key(grown, k) {
            let i = index_of(grown, k);
            if i < at {
                assert(entries[i].key == k);
            } else if i > at {
                assert(entries[i - 1].key == k);
            }
        }
        if has_key(entries, k) {
            let i = index_of(entries, k);
            if i < at {
                assert(grown[i].key == k);
            } else {
                assert(grown[i + 1].key == k);
            }
        }
        if k == entry.key {
            assert(grown[at].key == k);
        }
    }
    assert forall|k: Seq<u8>| has_key(grown, k) implies #[trigger] after[k] == before.insert(
        entry.key,
        entry.slot,
    )[k] by {
        let i = index_of(grown, k);
        lemma_index_of(grown, i);
        if i < at {
            assert(entries[i].key == k);
            lemma_index_of(entries, i);
        } else if i > at {
            assert(entries[i - 1].key == k);
            lemma_index_of(entries, i - 1);
        }
    }
    assert(after =~= before.insert(entry.key, entry.slot));
}

/// A store that keeps its entries in a vector sorted by key.
pub struct VectorMemTable {
    entries: Vec<MemTableEntry>,
    /// Sum of the lengths of all keys.
    key_bytes: u128,
    /// Sum of the lengths of all values.
    value_bytes: u128,
    cfg: VectorMemTableSettings,
}

impl VectorMemTable {
    /// The entries as the model sees them, in storage order.
    pub closed spec fn entry_views(&self) -> Seq<EntryView> {
        self.entries@.map_values(|e: MemTableEntry| e@)
    }

    /// The settings that the store was created with.
    pub closed spec fn settings(&self) -> VectorMemTableSettings {
        self.cfg
    }

    /// Creates an empty store with room reserved for the configured number
    /// of entries.
    pub fn new(cfg: VectorMemTableSettings) -> (store: Self)
        requires
            cfg.initial_vec_size <= usize::MAX,
        ensures
            store.wf(),
            store.model() == TableView::empty(),
            store.settings() == cfg,
    {
        let initial_vec_size: usize = cfg.initial_vec_size as usize;
        let store = VectorMemTable {
            entries: Vec::with_capacity(initial_vec_size),
            key_bytes: 0,
            value_bytes: 0,
            cfg,
        };
        assert(store.entry_views() =~= Seq::<EntryView>::empty());
        assert(key_lens(store.entry_views()) =~= Seq::<nat>::empty());
        assert(value_lens(store.entry_views()) =~= Seq::<nat>::empty());
        assert(slots_of(store.entry_views()) =~= Map::<Seq<u8>, Option<Seq<u8>>>::empty());
        store
    }

    /// No key and no value is longer than a slice can be.
    proof fn lemma_entry_bounds(&self)
        requires
            self.wf(),
        ensures
            forall|i: int|
                0 <= i < self.entry_views().len() ==> key_lens(self.entry_views())[i]
                    <= usize::MAX,
            forall|i: int|
                0 <= i < self.entry_views().len() ==> value_lens(self.entry_views())[i]
                    <= usize::MAX,
    {
        assert forall|i: int| 0 <= i < self.entry_views().len() implies key_lens(
            self.entry_views(),
        )[i] <= usize::MAX && value_lens(self.entry_views())[i] <= usize::MAX by {
            let e = self.entries[i];
            assert(self.entry_views()[i] == e@);
        }
    }

    /// Binary search for a key: the place of its entry, or the place where
    /// an entry for it would have to be put.
    fn get_index(&self, key: &[u8]) -> (place: Result<usize, usize>)
        requires
            self.wf(),
        ensures
            match place {
                Ok(at) => at < self.entry_views().len() && self.entry_views()[at as int].key
                    == key@,
                Err(at) => gap_at(self.entry_views(), key@, at as int),
            },
    {
        let ghost views = self.entry_views();
        let mut low: usize = 0;
        let mut high: usize = self.entries.len();
        while low < high
            invariant
                self.wf(),
                views == self.entry_views(),
                low <= high <= views.len(),
                views.len() == self.entries.len(),
                forall|j: int| 0 <= j < low ==> precedes(#[trigger] views[j].key, key@),
                forall|j: int| high <= j < views.len() ==> precedes(key@, #[trigger] views[j].key),
            decreases high - low,
        {
            let mid = low + (high - low) / 2;
            let probe: &[u8] = self.entries[mid].key.as_ref();
            assert(probe@ == views[mid as int].key);
            match compare(probe, key) {
                KeyOrder::Same => {
                    return Ok(mid);
                },
                KeyOrder::Before => {
                    assert forall|j: int| 0 <= j < mid + 1 implies precedes(
                        #[trigger] views[j].key,
                        key@,
                    ) by {
                        if j < mid {
                            assert(precedes(views[j].key, views[mid as int].key));
                            lemma_precedes_transitive(views[j].key, views[mid as int].key, key@);
                        }
                    }
                    low = mid + 1;
                },
                KeyOrder::After => {
                    assert forall|j: int| mid <= j < views.len() implies precedes(
                        key@,
                        #[trigger] views[j].key,
                    ) by {
                        if j > mid {
                            assert(precedes(views[mid as int].key, views[j].key));
                            lemma_precedes_transitive(key@, views[mid as int].key, views[j].key);
                        }
                    }
                    high = mid;
                },
            }
        }
        Err(low)
    }
}

impl MemTableStore for VectorMemTable {
    closed spec fn wf(&self) -> bool {
        let views = self.entry_views();
        &&& sorted(views)
        &&& self.key_bytes == total(key_lens(views))
        &&& self.value_bytes == total(value_lens(views))
        &&& forall|i: int|
            0 <= i < self.entries.len() ==> {
                let e = #[trigger] self.entries[i];
                &&& contents(e.key).len() <= usize::MAX
                &&& contents(e.value).len() <= usize::MAX
                &&& e.deleted ==> contents(e.value).len() == 0
            }
    }

    closed spec fn model(&self) -> TableView {
        TableView {
            slots: slots_of(self.entry_views()),
            footprint: total(key_lens(self.entry_views())) + total(value_lens(self.entry_views())),
        }
    }

    fn put(&mut self, key: &[u8], value: &[u8]) {
        let entry = MemTableEntry {
            key: Bytes::copy_from_slice(key),
            value: Bytes::copy_from_slice(value),
            deleted: false,
        };
        let ghost views = self.entry_views();
        let key_size = key.len();
        let value_size = value.len();
        proof {
            self.lemma_entry_bounds();
        }
        match self.get_index(key) {
            Ok(idx) => {
                let old_value_size = self.entries[idx].value.len();
                proof {
                    lemma_total_update(value_lens(views), idx as int, 0);
                    lemma_total_update(value_lens(views), idx as int, value@.len());
                    assert(views.len() == self.entries.len());
                    lemma_total_fits(value_lens(views).update(idx as int, value@.len()));
                    lemma_update_slots(views, idx as int, Some(value@));
                    lemma_index_of(views, idx as int);
                }
                self.value_bytes = self.value_bytes - old_value_size as u128
                    + value_size as u128;
                self.entries[idx] = entry;
                proof {
                    let changed = views.update(idx as int, entry@);
                    assert(self.entry_views() =~= changed);
                    assert(key_lens(changed) =~= key_lens(views));
                    assert(value_lens(changed) =~= value_lens(views).update(
                        idx as int,
                        value@.len(),
                    ));
                }
            },
            Err(idx) => {
                proof {
                    lemma_total_insert(key_lens(views), idx as int, key@.len());
                    lemma_total_insert(value_lens(views), idx as int, value@.len());
                    lemma_insert_slots(views, idx as int, entry@);
                    lemma_gap_excludes(views, key@, idx as int);
                }
                self.entries.insert(idx, entry);
                proof {
                    let grown = views.insert(idx as int, entry@);
                    assert(self.entry_views() =~= grown);
                    assert(grown.len() == self.entries.len());
                    assert(key_lens(grown) =~= key_lens(views).insert(idx as int, key@.len()));
                    assert(value_lens(grown) =~= value_lens(views).insert(
                        idx as int,
                        value@.len(),
                    ));
                    lemma_total_fits(key_lens(grown));
                    lemma_total_fits(value_lens(grown));
                }
                self.key_bytes = self.key_bytes + key_size as u128;
                self.value_bytes = self.value_bytes + value_size as u128;
            },
        }
    }

    fn delete(&mut self, key: &[u8]) {
        let ghost views = self.entry_views();
        match self.get_index(key) {
            Ok(idx) => {
                let removed = self.entries[idx].value.len();
                proof {
                    lemma_total_update(value_lens(views), idx as int, 0);
                    lemma_update_slots(views, idx as int, None);
                    lemma_index_of(views, idx as int);
                }
                self.value_bytes = self.value_bytes - removed as u128;
                let tombstone = MemTableEntry {
                    key: self.entries[idx].key.clone(),
                    value: Bytes::new(),
                    deleted: true,
                };
                self.entries[idx] = tombstone;
                proof {
                    let changed = views.update(idx as int, tombstone@);
                    assert(self.entry_views() =~= changed);
                    assert(key_lens(changed) =~= key_lens(views));
                    assert(value_lens(changed) =~= value_lens(views).update(idx as int, 0));
                }
            },
            Err(idx) => {
                proof {
                    lemma_gap_excludes(views, key@, idx as int);
                }
            },
        }
    }

    fn get(&self, key: &[u8]) -> (found: Option<Bytes>) {
        match self.get_index(key) {
            Ok(idx) => {
                proof {
                    lemma_index_of(self.entry_views(), idx as int);
                }
                if self.entries[idx].deleted {
                    None
                } else {
                    Some(self.entries[idx].value.clone())
                }
            },
            Err(idx) => {
                proof {
                    lemma_gap_excludes(self.entry_views(), key@, idx as int);
                }
                None
            },
        }
    }

    fn approximate_size(&self) -> (size: u128) {
        self.key_bytes.saturating_add(self.value_bytes)
    }
}

} // verus!
