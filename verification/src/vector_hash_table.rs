//! A table whose slots live in a vector sized at construction.
//!
//! Keys are texts of any length. Collisions are resolved by linear probing.
//! The table never grows: once every slot a probe may visit is taken by other
//! keys, insertion fails.

use crate::digest::{digest_str, str_digest};
use crate::error::TableError;
use crate::keys::text_equal;
use crate::probe::{
    lemma_probe_end_at, lemma_probe_end_none, lemma_probe_slot, lookup, probe_end, probe_slot,
    put, stops_at, take, vacant, walks_past,
};
use vstd::prelude::*;

verus! {

/// The abstract slot for a stored one.
pub open spec fn slot_model(slot: Option<(String, i32)>) -> Option<(Seq<char>, i32)> {
    match slot {
        Some((key, value)) => Some((key@, value)),
        None => None,
    }
}

/// The abstract slot index for a stored one.
spec fn index_model(index: Option<usize>) -> Option<int> {
    match index {
        Some(i) => Some(i as int),
        None => None,
    }
}

/// The home slot of a key in a table of `cap` slots: its digest reduced to
/// the table's size.
pub open spec fn home_slot(key: Seq<char>, cap: nat) -> int {
    ((str_digest(key) as usize) % (cap as usize)) as int
}

/// In a table that has slots, a key's home slot is one of them.
pub proof fn lemma_home_slot_within(key: Seq<char>, cap: nat)
    requires
        0 < cap <= usize::MAX,
    ensures
        0 <= home_slot(key, cap) < cap,
{
}

/// A table with a number of slots chosen at construction.
pub struct VectorHashTable {
    table: Vec<Option<(String, i32)>>,
    capacity: usize,
}

impl View for VectorHashTable {
    type V = Seq<Option<(Seq<char>, i32)>>;

    closed spec fn view(&self) -> Seq<Option<(Seq<char>, i32)>> {
        Seq::new(self.table@.len(), |i: int| slot_model(self.table@[i]))
    }
}

impl VectorHashTable {
    /// The table is well formed: its recorded size is its number of slots.
    pub closed spec fn wf(&self) -> bool {
        self.table@.len() == self.capacity
    }

    /// The number of slots of a well-formed table fits a machine word, so a
    /// key's home slot is a slot of the table whenever the table has slots.
    pub proof fn lemma_size_bounded(&self)
        requires
            self.wf(),
        ensures
            self@.len() <= usize::MAX,
    {
    }

    /// Creates an empty table of `size` slots.
    pub fn new(size: usize) -> (table: Self)
        ensures
            table.wf(),
            table@ == vacant::<Seq<char>>(size as nat),
    {
        let mut slots: Vec<Option<(String, i32)>> = Vec::new();
        let mut i: usize = 0;
        while i < size
            invariant
                i <= size,
                slots@.len() == i,
                forall|j: int| 0 <= j < i ==> slots@[j] is None,
            decreases size - i,
        {
            slots.push(None);
            i += 1;
        }
        let table = Self { table: slots, capacity: size };
        assert(table@ =~= vacant::<Seq<char>>(size as nat));
        table
    }

    /// Computes the home slot of `key`.
    pub fn hash(&self, key: &str) -> (idx: usize)
        requires
            self.wf(),
            self@.len() > 0,
        ensures
            idx == home_slot(key@, self@.len()),
            idx < self@.len(),
    {
        (digest_str(key) as usize) % self.capacity
    }

    /// What an insertion of `key` probing from `start` returns.
    pub open spec fn insert_result(
        slots: Seq<Option<(Seq<char>, i32)>>,
        start: int,
        key: Seq<char>,
    ) -> Result<(), TableError> {
        if probe_end(slots, start, key) is Some {
            Ok(())
        } else {
            Err(TableError::Full)
        }
    }

    /// Inserts `key` with `value`, or replaces the value if the key is found.
    ///
    /// Fails with `Full` when the probe finds neither the key nor an empty
    /// slot; the table is then left as it was.
    pub fn insert(&mut self, key: String, value: i32) -> (result: Result<(), TableError>)
        requires
            old(self).wf(),
        ensures
            final(self).wf(),
            result == Self::insert_result(old(self)@, home_slot(key@, old(self)@.len()), key@),
            final(self)@ == put(old(self)@, home_slot(key@, old(self)@.len()), key@, value),
    {
        if self.capacity == 0 {
            return Err(TableError::Full);
        }
        let start = self.hash(key.as_str());
        self.insert_from(start, key, value)
    }

    /// Inserts `key` with `value` as [`insert`](Self::insert) does, probing
    /// from the slot `start` instead of the key's home slot.
    pub fn insert_from(&mut self, start: usize, key: String, value: i32) -> (result: Result<
        (),
        TableError,
    >)
        requires
            old(self).wf(),
            start < old(self)@.len(),
        ensures
            final(self).wf(),
            result == Self::insert_result(old(self)@, start as int, key@),
            final(self)@ == put(old(self)@, start as int, key@, value),
    {
        match self.probe(start, key.as_str()) {
            Some(idx) => {
                let ghost pair = (key@, value);
                self.table[idx] = Some((key, value));
                assert(self@ =~= old(self)@.update(idx as int, Some(pair)));
                Ok(())
            },
            None => Err(TableError::Full),
        }
    }

    /// Looks `key` up, probing from its home slot.
    pub fn get(&self, key: &str) -> (value: Option<i32>)
        requires
            self.wf(),
        ensures
            value == lookup(self@, home_slot(key@, self@.len()), key@),
    {
        if self.capacity == 0 {
            return None;
        }
        let start = self.hash(key);
        self.get_from(start, key)
    }

    /// Looks `key` up as [`get`](Self::get) does, probing from the slot
    /// `start` instead of the key's home slot.
    pub fn get_from(&self, start: usize, key: &str) -> (value: Option<i32>)
        requires
            self.wf(),
            start < self@.len(),
        ensures
            value == lookup(self@, start as int, key@),
    {
        match self.probe(start, key) {
            Some(idx) => match &self.table[idx] {
                Some((_, value)) => Some(*value),
                None => None,
            },
            None => None,
        }
    }

    /// Removes `key` if the probe from its home slot finds it.
    pub fn remove(&mut self, key: &str)
        requires
            old(self).wf(),
        ensures
            final(self).wf(),
            final(self)@ == take(old(self)@, home_slot(key@, old(self)@.len()), key@),
    {
        if self.capacity == 0 {
            return ;
        }
        let start = self.hash(key);
        self.remove_from(start, key)
    }

    /// Removes `key` as [`remove`](Self::remove) does, probing from the slot
    /// `start` instead of the key's home slot.
    pub fn remove_from(&mut self, start: usize, key: &str)
        requires
            old(self).wf(),
            start < old(self)@.len(),
        ensures
            final(self).wf(),
            final(self)@ == take(old(self)@, start as int, key@),
    {
        match self.probe(start, key) {
            Some(idx) => {
                self.table[idx] = None;
                assert(self@ =~= old(self)@.update(idx as int, None));
            },
            None => {},
        }
    }

    /// Walks the probe sequence for `key` from `start` and returns the slot
    /// at which it ends.
    fn probe(&self, start: usize, key: &str) -> (end: Option<usize>)
        requires
            self.wf(),
            start < self@.len(),
        ensures
            index_model(end) == probe_end(self@, start as int, key@),
            end matches Some(idx) ==> idx < self@.len(),
    {
        let ghost slots = self@;
        let mut idx = start;
        let mut step: usize = 0;
        proof {
            lemma_probe_slot(self.capacity as int, start as int, 0);
        }
        while step < self.capacity
            invariant
                self.wf(),
                slots == self@,
                start < self.capacity,
                step <= self.capacity,
                idx == probe_slot(self.capacity as int, start as int, step as int),
                idx < self.capacity,
                walks_past(slots, start as int, key@, step as int),
            decreases self.capacity - step,
        {
            let stop = match &self.table[idx] {
                None => true,
                Some((stored, _)) => text_equal(stored.as_str(), key),
            };
            if stop {
                proof {
                    assert(stops_at(slots, start as int, key@, step as int));
                    lemma_probe_end_at(slots, start as int, key@, step as int);
                }
                return Some(idx);
            }
            proof {
                lemma_probe_slot(self.capacity as int, start as int, step as int);
            }
            idx = (idx + 1) % self.capacity;
            step += 1;
        }
        proof {
            lemma_probe_end_none(slots, start as int, key@);
        }
        None
    }
}

} // verus!
