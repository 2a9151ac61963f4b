//! A bounded table built from a hash map and two queues of keys.
//!
//! The map holds the values. One queue holds each key once, in the order in
//! which the keys entered the table; replacing the value of a key that is
//! present does not move it there. The other queue holds each key once, in
//! the order of its last write; every accepted insertion moves the key to
//! its back. The oldest entry is read off the front of the first queue, the
//! most recently written one off the back of the second.

use crate::error::TableError;
use crate::keys::text_equal;
use crate::ordered::{
    lemma_index_of, lemma_insert_valid, lemma_remove_valid, without, OrderedState,
};
use std::collections::VecDeque;
use vstd::hash_map::StringHashMap;
use vstd::prelude::*;

verus! {

/// The keys of a queue as texts.
pub open spec fn keys_of(queue: Seq<String>) -> Seq<Seq<char>> {
    queue.map_values(|key: String| key@)
}

/// A table that accepts up to a number of keys chosen at construction.
pub struct HashMapHashTable {
    map: StringHashMap<i32>,
    order: VecDeque<String>,
    recent: VecDeque<String>,
    capacity: usize,
}

impl View for HashMapHashTable {
    type V = OrderedState;

    closed spec fn view(&self) -> OrderedState {
        OrderedState {
            order: keys_of(self.order@),
            recent: keys_of(self.recent@),
            map: self.map@,
            capacity: self.capacity as nat,
        }
    }
}

/// Takes `key` out of `queue` if it is there.
fn drop_key(queue: &mut VecDeque<String>, key: &str)
    requires
        keys_of(old(queue)@).no_duplicates(),
    ensures
        keys_of(final(queue)@) == without(keys_of(old(queue)@), key@),
{
    let ghost before = keys_of(queue@);
    let mut pos: usize = 0;
    while pos < queue.len()
        invariant
            pos <= queue@.len(),
            *queue == *old(queue),
            before == keys_of(queue@),
            before.no_duplicates(),
            forall|j: int| 0 <= j < pos ==> before[j] != key@,
        decreases queue@.len() - pos,
    {
        if text_equal(queue[pos].as_str(), key) {
            queue.remove(pos);
            proof {
                lemma_index_of(before, key@, pos as int);
                assert(keys_of(queue@) =~= before.remove(pos as int));
            }
            return ;
        }
        pos += 1;
    }
    proof {
        if before.contains(key@) {
            let i = before.index_of(key@);
            assert(before[i] == key@);
        }
    }
}

impl HashMapHashTable {
    /// The table is well formed: its abstract state is valid.
    pub open spec fn wf(&self) -> bool {
        self@.valid()
    }

    /// Creates an empty table with room for `capacity` keys.
    pub fn new(capacity: usize) -> (table: Self)
        ensures
            table.wf(),
            table@ == OrderedState::empty(capacity as nat),
    {
        let table = Self {
            map: StringHashMap::with_capacity(capacity),
            order: VecDeque::with_capacity(capacity),
            recent: VecDeque::with_capacity(capacity),
            capacity,
        };
        assert(table@.order =~= Seq::empty());
        assert(table@.recent =~= Seq::empty());
        table
    }

    /// What an insertion of `key` returns.
    pub open spec fn insert_result(state: OrderedState, key: Seq<char>) -> Result<(), TableError> {
        if state.has_room(key) {
            Ok(())
        } else {
            Err(TableError::Full)
        }
    }

    /// Inserts `key` with `value`, or replaces the value if the key is present.
    /// Either way the key becomes the most recently written one.
    ///
    /// Fails with `Full` when the key is new and the table holds as many keys
    /// as its capacity; the table is then left as it was.
    pub fn insert(&mut self, key: String, value: i32) -> (result: Result<(), TableError>)
        requires
            old(self).wf(),
        ensures
            final(self).wf(),
            result == Self::insert_result(old(self)@, key@),
            final(self)@ == old(self)@.insert(key@, value),
    {
        let ghost text = key@;
        proof {
            lemma_insert_valid(old(self)@, text, value);
        }
        if self.map.contains_key(key.as_str()) {
            self.map.insert(key.clone(), value);
            drop_key(&mut self.recent, key.as_str());
            self.recent.push_back(key);
            assert(self@.recent =~= without(old(self)@.recent, text).push(text));
            return Ok(());
        }
        if self.map.len() == self.capacity {
            return Err(TableError::Full);
        }
        self.map.insert(key.clone(), value);
        self.order.push_back(key.clone());
        self.recent.push_back(key);
        assert(self@.order =~= old(self)@.order.push(text));
        assert(self@.recent =~= old(self)@.recent.push(text));
        Ok(())
    }

    /// Looks `key` up.
    pub fn get(&self, key: &str) -> (value: Option<i32>)
        requires
            self.wf(),
        ensures
            value == self@.get(key@),
    {
        match self.map.get(key) {
            Some(value) => Some(*value),
            None => None,
        }
    }

    /// Removes `key` with its value, if it is present.
    pub fn remove(&mut self, key: &str)
        requires
            old(self).wf(),
        ensures
            final(self).wf(),
            final(self)@ == old(self)@.remove(key@),
    {
        if !self.map.contains_key(key) {
            return ;
        }
        proof {
            lemma_remove_valid(old(self)@, key@);
        }
        self.map.remove(key);
        drop_key(&mut self.order, key);
        drop_key(&mut self.recent, key);
    }

    /// Returns the key that entered the table earliest, with its value.
    pub fn get_first(&self) -> (entry: Option<(&str, i32)>)
        requires
            self.wf(),
        ensures
            match entry {
                Some((key, value)) => self@.first_entry() == Some((key@, value)),
                None => self@.first_entry() is None,
            },
    {
        if self.order.len() == 0 {
            return None;
        }
        let key = self.order[0].as_str();
        assert(self@.order[0] == key@);
        assert(self@.order.contains(key@));
        self.entry_of(key)
    }

    /// Returns the key written most recently, with its value.
    pub fn get_last(&self) -> (entry: Option<(&str, i32)>)
        requires
            self.wf(),
        ensures
            match entry {
                Some((key, value)) => self@.last_entry() == Some((key@, value)),
                None => self@.last_entry() is None,
            },
    {
        if self.recent.len() == 0 {
            return None;
        }
        let key = self.recent[self.recent.len() - 1].as_str();
        assert(self@.recent[self.recent@.len() - 1] == key@);
        assert(self@.recent.contains(key@));
        self.entry_of(key)
    }

    /// A key that is present, with its value.
    fn entry_of<'a>(&self, key: &'a str) -> (entry: Option<(&'a str, i32)>)
        requires
            self@.map.contains_key(key@),
        ensures
            entry == Some((key, self@.map[key@])),
    {
        match self.map.get(key) {
            Some(value) => Some((key, *value)),
            None => None,
        }
    }
}

} // verus!
