//! The keyed store of geometry records, mutable by removal.
//!
//! The asset pipeline owns mesh geometry keyed by handle; conversion
//! consumes a record by removing it from the store. The store is a flat
//! list of handle/record pairs with unique handles, abstracted as a map
//! from handle to record.

use vstd::prelude::*;

use crate::geometry::GeometryRecord;

verus! {

/// The map a pair list denotes: later pairs would win, but the store keeps
/// handles unique, so order never matters.
pub open spec fn entries_map(entries: Seq<(u64, GeometryRecord)>) -> Map<u64, GeometryRecord>
    decreases entries.len(),
{
    if entries.len() == 0 {
        Map::empty()
    } else {
        entries_map(entries.drop_last()).insert(entries.last().0, entries.last().1)
    }
}

/// A handle outside a pair list is outside the map it denotes.
proof fn lemma_entries_map_absent(entries: Seq<(u64, GeometryRecord)>, handle: u64)
    requires
        forall|i: int| 0 <= i < entries.len() ==> (#[trigger] entries[i]).0 != handle,
    ensures
        !entries_map(entries).contains_key(handle),
    decreases entries.len(),
{
    if entries.len() > 0 {
        lemma_entries_map_absent(entries.drop_last(), handle);
    }
}

/// A pair of the list is in the map it denotes; with unique handles it maps
/// to exactly its own record.
proof fn lemma_entries_map_present(entries: Seq<(u64, GeometryRecord)>, i: int)
    requires
        0 <= i < entries.len(),
        forall|j: int, k: int|
            0 <= j < k < entries.len() ==> (#[trigger] entries[j]).0 != (#[trigger] entries[k]).0,
    ensures
        entries_map(entries).contains_key(entries[i].0),
        entries_map(entries)[entries[i].0] == entries[i].1,
    decreases entries.len(),
{
    if i < entries.len() - 1 {
        lemma_entries_map_present(entries.drop_last(), i);
    }
}

/// Removing the pair at index `i` from a unique-handle list removes exactly
/// its handle from the denoted map.
proof fn lemma_entries_map_remove(entries: Seq<(u64, GeometryRecord)>, i: int)
    requires
        0 <= i < entries.len(),
        forall|j: int, k: int|
            0 <= j < k < entries.len() ==> (#[trigger] entries[j]).0 != (#[trigger] entries[k]).0,
    ensures
        entries_map(entries.remove(i)) =~= entries_map(entries).remove(entries[i].0),
    decreases entries.len(),
{
    let handle = entries[i].0;
    if i == entries.len() - 1 {
        assert(entries.remove(i) =~= entries.drop_last());
        assert(forall|j: int|
            0 <= j < entries.drop_last().len() ==> (#[trigger] entries.drop_last()[j]).0
                != handle);
        lemma_entries_map_absent(entries.drop_last(), handle);
    } else {
        assert(entries.remove(i).drop_last() =~= entries.drop_last().remove(i));
        lemma_entries_map_remove(entries.drop_last(), i);
    }
}

/// Appending a fresh handle extends the denoted map by exactly that pair.
proof fn lemma_entries_map_push(entries: Seq<(u64, GeometryRecord)>, pair: (u64, GeometryRecord))
    ensures
        entries_map(entries.push(pair)) == entries_map(entries).insert(pair.0, pair.1),
{
    assert(entries.push(pair).drop_last() =~= entries);
}

/// Replacing the record at index `i` updates the denoted map at exactly that
/// handle.
proof fn lemma_entries_map_update(
    entries: Seq<(u64, GeometryRecord)>,
    i: int,
    record: GeometryRecord,
)
    requires
        0 <= i < entries.len(),
        forall|j: int, k: int|
            0 <= j < k < entries.len() ==> (#[trigger] entries[j]).0 != (#[trigger] entries[k]).0,
    ensures
        entries_map(entries.update(i, (entries[i].0, record))) =~= entries_map(entries).insert(
            entries[i].0,
            record,
        ),
    decreases entries.len(),
{
    let handle = entries[i].0;
    let updated = entries.update(i, (handle, record));
    if i == entries.len() - 1 {
        assert(updated.drop_last() =~= entries.drop_last());
    } else {
        assert(updated.drop_last() =~= entries.drop_last().update(i, (handle, record)));
        lemma_entries_map_update(entries.drop_last(), i, record);
    }
}

/// The keyed store of geometry records.
#[derive(Debug)]
pub struct GeometryStore {
    pub entries: Vec<(u64, GeometryRecord)>,
}

impl GeometryStore {
    /// Handles are unique across the store.
    pub open spec fn wf(self) -> bool {
        forall|j: int, k: int|
            0 <= j < k < self.entries@.len() ==> (#[trigger] self.entries@[j]).0
                != (#[trigger] self.entries@[k]).0
    }

    /// The store as a map from handle to record.
    pub open spec fn as_map(self) -> Map<u64, GeometryRecord> {
        entries_map(self.entries@)
    }

    /// An empty store.
    pub fn new() -> (store: GeometryStore)
        ensures
            store.wf(),
            store.as_map() == Map::<u64, GeometryRecord>::empty(),
    {
        GeometryStore { entries: Vec::new() }
    }

    /// The index of the pair carrying `handle`, if any.
    fn find(&self, handle: u64) -> (found: Option<usize>)
        requires
            self.wf(),
        ensures
            match found {
                Some(i) => i < self.entries@.len() && self.entries@[i as int].0 == handle
                    && self.as_map().contains_key(handle) && self.as_map()[handle]
                    == self.entries@[i as int].1,
                None => !self.as_map().contains_key(handle),
            },
    {
        let mut i: usize = 0;
        while i < self.entries.len()
            invariant
                self.wf(),
                i <= self.entries@.len(),
                forall|j: int| 0 <= j < i ==> (#[trigger] self.entries@[j]).0 != handle,
            decreases self.entries@.len() - i,
        {
            if self.entries[i].0 == handle {
                proof {
                    lemma_entries_map_present(self.entries@, i as int);
                }
                return Some(i);
            }
            i = i + 1;
        }
        proof {
            lemma_entries_map_absent(self.entries@, handle);
        }
        None
    }

    /// Whether the store holds a record under `handle`.
    pub fn contains(&self, handle: u64) -> (present: bool)
        requires
            self.wf(),
        ensures
            present == self.as_map().contains_key(handle),
    {
        self.find(handle).is_some()
    }

    /// Stores `record` under `handle`, replacing any record already there.
    pub fn insert(&mut self, handle: u64, record: GeometryRecord)
        requires
            old(self).wf(),
        ensures
            final(self).wf(),
            final(self).as_map() == old(self).as_map().insert(handle, record),
    {
        let found = self.find(handle);
        match found {
            Some(i) => {
                proof {
                    lemma_entries_map_update(self.entries@, i as int, record);
                }
                self.entries.set(i, (handle, record));
            },
            None => {
                proof {
                    lemma_entries_map_push(self.entries@, (handle, record));
                }
                self.entries.push((handle, record));
                proof {
                    assert forall|j: int, k: int|
                        0 <= j < k < self.entries@.len() implies (#[trigger] self.entries@[j]).0
                        != (#[trigger] self.entries@[k]).0 by {
                        if k == self.entries@.len() - 1 {
                            assert(!entries_map(old(self).entries@).contains_key(handle));
                            lemma_entries_map_present_all(old(self).entries@, j);
                        }
                    }
                }
            },
        }
    }

    /// Removes and returns the record stored under `handle`: the destructive
    /// retrieval that transfers ownership of a geometry record to its one
    /// consumer. Any other consumer sharing the handle — a renderer, say —
    /// would lose the record too; the pipeline deliberately reclaims the
    /// memory anyway.
    pub fn remove(&mut self, handle: u64) -> (removed: Option<GeometryRecord>)
        requires
            old(self).wf(),
        ensures
            final(self).wf(),
            old(self).as_map().contains_key(handle) ==> (removed matches Some(record)
                && record == old(self).as_map()[handle]),
            !old(self).as_map().contains_key(handle) ==> removed is None,
            final(self).as_map() == old(self).as_map().remove(handle),
    {
        let found = self.find(handle);
        match found {
            Some(i) => {
                proof {
                    lemma_entries_map_remove(self.entries@, i as int);
                }
                let pair = self.entries.remove(i);
                Some(pair.1)
            },
            None => {
                proof {
                    assert(old(self).as_map().remove(handle) =~= old(self).as_map());
                }
                None
            },
        }
    }
}

/// A pair's handle is in the denoted map, with no uniqueness assumption.
proof fn lemma_entries_map_present_all(entries: Seq<(u64, GeometryRecord)>, i: int)
    requires
        0 <= i < entries.len(),
    ensures
        entries_map(entries).contains_key(entries[i].0),
    decreases entries.len(),
{
    if i < entries.len() - 1 {
        lemma_entries_map_present_all(entries.drop_last(), i);
    }
}

} // verus!
