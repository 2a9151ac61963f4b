//! A table of fixed size whose slots and keys live in arrays.
//!
//! Every slot has room for a key of up to [`MAX_KEY_LEN`] bytes; only the
//! first `len` bytes of the buffer belong to the key. Collisions are resolved
//! by linear probing, and the table remembers its oldest and its most recently
//! written entry.

use crate::digest::{bytes_digest, digest_bytes};
use crate::endpoints::{
    all_empty, highest_occupied, lemma_scan_result, lemma_valid_preserved, lowest_occupied,
    TableState,
};
use crate::error::TableError;
use crate::keys::bytes_equal;
use crate::probe::{
    lemma_probe_end_at, lemma_probe_end_none, lemma_probe_slot, probe_end, probe_slot, stops_at,
    vacant, walks_past,
};
use vstd::prelude::*;
use vstd::slice::slice_subrange;

verus! {

/// The number of slots.
pub const CAPACITY: usize = 12134;

/// The longest key, in bytes, that a slot can hold.
pub const MAX_KEY_LEN: usize = 30;

/// An occupied slot: the key in a fixed buffer, its length, and the value.
#[derive(Clone, Copy)]
struct Entry {
    key: [u8; MAX_KEY_LEN],
    len: usize,
    value: i32,
}

impl Entry {
    /// The key proper, without the padding, and the value.
    spec fn model(self) -> (Seq<u8>, i32) {
        (self.key@.subrange(0, self.len as int), self.value)
    }
}

/// The abstract slot for a stored one.
spec fn slot_model(slot: Option<Entry>) -> Option<(Seq<u8>, i32)> {
    match slot {
        Some(entry) => Some(entry.model()),
        None => None,
    }
}

/// The abstract endpoint for a stored one.
spec fn endpoint_model(endpoint: Option<usize>) -> Option<int> {
    match endpoint {
        Some(i) => Some(i as int),
        None => None,
    }
}

/// The home slot of a key: its digest reduced to the table's size.
pub open spec fn home_slot(key: Seq<u8>) -> int {
    ((bytes_digest(key) as usize) % CAPACITY) as int
}

/// A key's home slot is a slot of the table.
pub proof fn lemma_home_slot_within(key: Seq<u8>)
    ensures
        0 <= home_slot(key) < CAPACITY,
{
}

/// A table of [`CAPACITY`] slots with keys of at most [`MAX_KEY_LEN`] bytes.
pub struct ArrayHashTable {
    table: [Option<Entry>; CAPACITY],
    first: Option<usize>,
    last: Option<usize>,
}

impl View for ArrayHashTable {
    type V = TableState<Seq<u8>>;

    closed spec fn view(&self) -> TableState<Seq<u8>> {
        TableState {
            slots: Seq::new(CAPACITY as nat, |i: int| slot_model(self.table@[i])),
            first: endpoint_model(self.first),
            last: endpoint_model(self.last),
        }
    }
}

impl ArrayHashTable {
    /// Every stored key fits its buffer.
    pub closed spec fn keys_fit(&self) -> bool {
        forall|i: int|
            0 <= i < CAPACITY ==> match #[trigger] self.table@[i] {
                Some(entry) => entry.len <= MAX_KEY_LEN,
                None => true,
            }
    }

    /// The table is well formed: it has [`CAPACITY`] slots, no key is longer
    /// than [`MAX_KEY_LEN`], and the endpoints are valid.
    pub open spec fn wf(&self) -> bool {
        &&& self.keys_fit()
        &&& self@.slots.len() == CAPACITY
        &&& self@.valid()
        &&& forall|i: int|
            0 <= i < CAPACITY ==> match #[trigger] self@.slots[i] {
                Some((key, _)) => key.len() <= MAX_KEY_LEN,
                None => true,
            }
    }

    /// Creates an empty table.
    pub fn new() -> (table: Self)
        ensures
            table.wf(),
            table@ == TableState::<Seq<u8>>::empty(CAPACITY as nat),
    {
        let table = Self { table: [None;CAPACITY], first: None, last: None };
        assert(table@.slots =~= vacant::<Seq<u8>>(CAPACITY as nat));
        table
    }

    /// Computes the home slot of `key`.
    pub fn hash(&self, key: &[u8]) -> (idx: usize)
        ensures
            idx == home_slot(key@),
            idx < CAPACITY,
    {
        (digest_bytes(key) as usize) % CAPACITY
    }

    /// Inserts `key` with `value`, or replaces the value if the key is found.
    ///
    /// Fails with `KeyTooLong` for a key of more than [`MAX_KEY_LEN`] bytes and
    /// with `Full` when the probe finds neither the key nor an empty slot. A
    /// failed insertion leaves the table as it was.
    pub fn insert(&mut self, key: &[u8], value: i32) -> (result: Result<(), TableError>)
        requires
            old(self).wf(),
        ensures
            final(self).wf(),
            result == Self::insert_result(old(self)@, home_slot(key@), key@),
            final(self)@ == (if result is Ok {
                old(self)@.insert(home_slot(key@), key@, value)
            } else {
                old(self)@
            }),
    {
        let start = self.hash(key);
        self.insert_from(start, key, value)
    }

    /// What an insertion of `key` probing from `start` returns.
    pub open spec fn insert_result(state: TableState<Seq<u8>>, start: int, key: Seq<u8>) -> Result<
        (),
        TableError,
    > {
        if key.len() > MAX_KEY_LEN {
            Err(TableError::KeyTooLong)
        } else if state.has_room(start, key) {
            Ok(())
        } else {
            Err(TableError::Full)
        }
    }

    /// Inserts `key` with `value` as [`insert`](Self::insert) does, probing
    /// from the slot `start` instead of the key's home slot.
    pub fn insert_from(&mut self, start: usize, key: &[u8], value: i32) -> (result: Result<
        (),
        TableError,
    >)
        requires
            old(self).wf(),
            start < CAPACITY,
        ensures
            final(self).wf(),
            result == Self::insert_result(old(self)@, start as int, key@),
            final(self)@ == (if result is Ok {
                old(self)@.insert(start as int, key@, value)
            } else {
                old(self)@
            }),
    {
        if key.len() > MAX_KEY_LEN {
            return Err(TableError::KeyTooLong);
        }
        let mut padded_key = [0u8;MAX_KEY_LEN];
        let key_len = key.len();
        padded_copy(key, &mut padded_key);
        let entry = Entry { key: padded_key, len: key_len, value };
        assert(entry.model() == (key@, value)) by {
            assert(entry.key@.subrange(0, key_len as int) =~= key@);
        }
        proof {
            lemma_valid_preserved(self@, start as int, key@, value);
        }
        match self.probe(start, key) {
            Some(idx) => {
                if self.table[idx].is_none() {
                    if self.first.is_none() {
                        self.first = Some(idx);
                    }
                }
                self.table[idx] = Some(entry);
                self.last = Some(idx);
                assert(self@.slots =~= old(self)@.slots.update(idx as int, Some((key@, value))));
                Ok(())
            },
            None => Err(TableError::Full),
        }
    }

    /// Removes `key` if the probe from its home slot finds it.
    ///
    /// When the emptied slot was an endpoint, both endpoints are found again
    /// by a scan of the table.
    pub fn remove(&mut self, key: &[u8])
        requires
            old(self).wf(),
        ensures
            final(self).wf(),
            final(self)@ == old(self)@.remove(home_slot(key@), key@),
    {
        let start = self.hash(key);
        self.remove_from(start, key)
    }

    /// Removes `key` as [`remove`](Self::remove) does, probing from the slot
    /// `start` instead of the key's home slot.
    pub fn remove_from(&mut self, start: usize, key: &[u8])
        requires
            old(self).wf(),
            start < CAPACITY,
        ensures
            final(self).wf(),
            final(self)@ == old(self)@.remove(start as int, key@),
    {
        proof {
            lemma_valid_preserved(self@, start as int, key@, 0);
        }
        match self.probe(start, key) {
            Some(idx) => {
                if self.table[idx].is_some() {
                    self.table[idx] = None;
                    assert(self@.slots =~= old(self)@.slots.update(idx as int, None));
                    if self.first == Some(idx) || self.last == Some(idx) {
                        self.update_first_last();
                    }
                }
            },
            None => {},
        }
    }

    /// Looks `key` up, probing from its home slot.
    pub fn get(&self, key: &[u8]) -> (value: Option<i32>)
        requires
            self.wf(),
        ensures
            value == self@.get(home_slot(key@), key@),
    {
        let start = self.hash(key);
        self.get_from(start, key)
    }

    /// Looks `key` up as [`get`](Self::get) does, probing from the slot
    /// `start` instead of the key's home slot.
    pub fn get_from(&self, start: usize, key: &[u8]) -> (value: Option<i32>)
        requires
            self.wf(),
            start < CAPACITY,
        ensures
            value == self@.get(start as int, key@),
    {
        match self.probe(start, key) {
            Some(idx) => match &self.table[idx] {
                Some(entry) => Some(entry.value),
                None => None,
            },
            None => None,
        }
    }

    /// Returns the most recently written entry.
    pub fn get_last(&self) -> (entry: Option<(&[u8], i32)>)
        requires
            self.wf(),
        ensures
            match entry {
                Some((key, value)) => self@.last_entry() == Some((key@, value)),
                None => self@.last_entry() is None,
            },
            entry is None <==> all_empty(self@.slots),
    {
        match self.last {
            Some(idx) => self.entry_at(idx),
            None => None,
        }
    }

    /// Returns the oldest entry.
    pub fn get_first(&self) -> (entry: Option<(&[u8], i32)>)
        requires
            self.wf(),
        ensures
            match entry {
                Some((key, value)) => self@.first_entry() == Some((key@, value)),
                None => self@.first_entry() is None,
            },
            entry is None <==> all_empty(self@.slots),
    {
        match self.first {
            Some(idx) => self.entry_at(idx),
            None => None,
        }
    }

    /// The key and value in slot `idx`.
    fn entry_at(&self, idx: usize) -> (entry: Option<(&[u8], i32)>)
        requires
            self.keys_fit(),
            idx < CAPACITY,
        ensures
            match entry {
                Some((key, value)) => self@.slots[idx as int] == Some((key@, value)),
                None => self@.slots[idx as int] is None,
            },
    {
        match &self.table[idx] {
            Some(entry) => Some((slice_subrange(entry.key.as_slice(), 0, entry.len), entry.value)),
            None => None,
        }
    }

    /// Finds the endpoints again by a scan over all slots: `first` becomes the
    /// lowest occupied slot and `last` the highest.
    fn update_first_last(&mut self)
        requires
            old(self).keys_fit(),
        ensures
            final(self).keys_fit(),
            final(self)@.slots == old(self)@.slots,
            final(self)@.first == lowest_occupied(old(self)@.slots),
            final(self)@.last == highest_occupied(old(self)@.slots),
    {
        self.first = None;
        self.last = None;
        let mut idx: usize = 0;
        while idx < CAPACITY
            invariant
                idx <= CAPACITY,
                self.table == old(self).table,
                match self.first {
                    Some(f) => f < idx && self.table@[f as int] is Some && forall|j: int|
                        0 <= j < f ==> self.table@[j] is None,
                    None => forall|j: int| 0 <= j < idx ==> self.table@[j] is None,
                },
                match self.last {
                    Some(l) => l < idx && self.table@[l as int] is Some && forall|j: int|
                        l < j < idx ==> self.table@[j] is None,
                    None => forall|j: int| 0 <= j < idx ==> self.table@[j] is None,
                },
            decreases CAPACITY - idx,
        {
            if self.table[idx].is_some() {
                if self.first.is_none() {
                    self.first = Some(idx);
                }
                self.last = Some(idx);
            }
            idx += 1;
        }
        proof {
            let slots = self@.slots;
            assert(slots =~= old(self)@.slots);
            assert forall|j: int| 0 <= j < CAPACITY implies (slots[j] is None
                <==> self.table@[j] is None) by {}
            lemma_scan_result(slots, self@.first, self@.last);
        }
    }

    /// Walks the probe sequence for `key` from `start` and returns the slot
    /// at which it ends.
    fn probe(&self, start: usize, key: &[u8]) -> (end: Option<usize>)
        requires
            self.keys_fit(),
            start < CAPACITY,
        ensures
            endpoint_model(end) == probe_end(self@.slots, start as int, key@),
            end matches Some(idx) ==> idx < CAPACITY && (self.table@[idx as int] matches Some(entry)
                ==> entry.model().0 == key@),
    {
        let ghost slots = self@.slots;
        let mut idx = start;
        let mut step: usize = 0;
        proof {
            lemma_probe_slot(CAPACITY as int, start as int, 0);
        }
        while step < CAPACITY
            invariant
                self.keys_fit(),
                slots == self@.slots,
                start < CAPACITY,
                step <= CAPACITY,
                idx == probe_slot(CAPACITY as int, start as int, step as int),
                idx < CAPACITY,
                walks_past(slots, start as int, key@, step as int),
            decreases CAPACITY - step,
        {
            let stop = match &self.table[idx] {
                None => true,
                Some(entry) => key_matches(entry, key),
            };
            if stop {
                proof {
                    assert(stops_at(slots, start as int, key@, step as int));
                    lemma_probe_end_at(slots, start as int, key@, step as int);
                }
                return Some(idx);
            }
            proof {
                lemma_probe_slot(CAPACITY as int, start as int, step as int);
            }
            idx = (idx + 1) % CAPACITY;
            step += 1;
        }
        proof {
            lemma_probe_end_none(slots, start as int, key@);
        }
        None
    }
}

/// Whether the key stored in `entry`, its first `len` bytes, equals `key`.
fn key_matches(entry: &Entry, key: &[u8]) -> (same: bool)
    requires
        entry.len <= MAX_KEY_LEN,
    ensures
        same == (entry.model().0 == key@),
{
    bytes_equal(slice_subrange(entry.key.as_slice(), 0, entry.len), key)
}

/// Copies `src` to the front of `dst` and leaves the rest of `dst` alone.
pub fn padded_copy(src: &[u8], dst: &mut [u8; MAX_KEY_LEN])
    requires
        src@.len() <= MAX_KEY_LEN,
    ensures
        final(dst)@ == src@ + old(dst)@.subrange(src@.len() as int, MAX_KEY_LEN as int),
{
    let mut i: usize = 0;
    while i < src.len()
        invariant
            i <= src@.len() <= MAX_KEY_LEN,
            forall|j: int| 0 <= j < i ==> dst@[j] == src@[j],
            forall|j: int| i <= j < MAX_KEY_LEN ==> dst@[j] == old(dst)@[j],
        decreases src@.len() - i,
    {
        dst[i] = src[i];
        i += 1;
    }
    assert(dst@ =~= src@ + old(dst)@.subrange(src@.len() as int, MAX_KEY_LEN as int));
}

} // verus!
