//! A slot table together with its two endpoints.
//!
//! `first` names the slot of the entry that has been in the table longest and
//! `last` the slot written most recently. Insertion keeps them up to date in
//! constant time. When a removal empties one of the two slots they are found
//! again by scanning the table: `first` becomes the lowest occupied slot and
//! `last` the highest.

use crate::probe::{lemma_probe_end_some, lookup, probe_end, vacant};
use vstd::prelude::*;

verus! {

/// Slot `i` is occupied and no slot below it is.
pub open spec fn is_lowest_occupied<K>(slots: Seq<Option<(K, i32)>>, i: int) -> bool {
    &&& 0 <= i < slots.len()
    &&& slots[i] is Some
    &&& forall|j: int| 0 <= j < i ==> slots[j] is None
}

/// Slot `i` is occupied and no slot above it is.
pub open spec fn is_highest_occupied<K>(slots: Seq<Option<(K, i32)>>, i: int) -> bool {
    &&& 0 <= i < slots.len()
    &&& slots[i] is Some
    &&& forall|j: int| i < j < slots.len() ==> slots[j] is None
}

/// The lowest occupied slot, if any slot is occupied.
pub open spec fn lowest_occupied<K>(slots: Seq<Option<(K, i32)>>) -> Option<int> {
    if exists|i: int| is_lowest_occupied(slots, i) {
        Some(choose|i: int| is_lowest_occupied(slots, i))
    } else {
        None
    }
}

/// The highest occupied slot, if any slot is occupied.
pub open spec fn highest_occupied<K>(slots: Seq<Option<(K, i32)>>) -> Option<int> {
    if exists|i: int| is_highest_occupied(slots, i) {
        Some(choose|i: int| is_highest_occupied(slots, i))
    } else {
        None
    }
}

/// No slot is occupied.
pub open spec fn all_empty<K>(slots: Seq<Option<(K, i32)>>) -> bool {
    forall|i: int| 0 <= i < slots.len() ==> slots[i] is None
}

/// The abstract state of a table that tracks its endpoints.
pub ghost struct TableState<K> {
    /// The slots, in index order.
    pub slots: Seq<Option<(K, i32)>>,
    /// The slot of the oldest entry.
    pub first: Option<int>,
    /// The slot of the entry written last.
    pub last: Option<int>,
}

impl<K> TableState<K> {
    /// The empty table of `cap` slots.
    pub open spec fn empty(cap: nat) -> Self {
        TableState { slots: vacant(cap), first: None, last: None }
    }

    /// The endpoints are both absent when no slot is occupied, and otherwise
    /// both name occupied slots.
    pub open spec fn valid(self) -> bool {
        match (self.first, self.last) {
            (None, None) => all_empty(self.slots),
            (Some(f), Some(l)) => {
                &&& 0 <= f < self.slots.len()
                &&& 0 <= l < self.slots.len()
                &&& self.slots[f] is Some
                &&& self.slots[l] is Some
            },
            _ => false,
        }
    }

    /// The value found for `key` when probing from `start`.
    pub open spec fn get(self, start: int, key: K) -> Option<i32> {
        lookup(self.slots, start, key)
    }

    /// Whether an insertion of `key` probing from `start` finds a slot.
    pub open spec fn has_room(self, start: int, key: K) -> bool {
        probe_end(self.slots, start, key) is Some
    }

    /// The state after inserting `key` with `value`, probing from `start`.
    ///
    /// The slot where the probe ends receives the pair and becomes `last`. If
    /// that slot was empty and the table had no `first`, it becomes `first`
    /// too. Without such a slot the state is unchanged.
    pub open spec fn insert(self, start: int, key: K, value: i32) -> Self {
        match probe_end(self.slots, start, key) {
            Some(j) => TableState {
                slots: self.slots.update(j, Some((key, value))),
                first: if self.slots[j] is None && self.first is None {
                    Some(j)
                } else {
                    self.first
                },
                last: Some(j),
            },
            None => self,
        }
    }

    /// The state after removing `key`, probing from `start`.
    ///
    /// If the probe ends at a slot holding the key, that slot is emptied; if
    /// it was an endpoint, both endpoints are found again by scanning.
    /// Otherwise the state is unchanged.
    pub open spec fn remove(self, start: int, key: K) -> Self {
        match probe_end(self.slots, start, key) {
            Some(j) => if self.slots[j] is Some {
                let slots = self.slots.update(j, None);
                if self.first == Some(j) || self.last == Some(j) {
                    TableState {
                        slots,
                        first: lowest_occupied(slots),
                        last: highest_occupied(slots),
                    }
                } else {
                    TableState { slots, first: self.first, last: self.last }
                }
            } else {
                self
            },
            None => self,
        }
    }

    /// The entry in the slot that `first` names.
    pub open spec fn first_entry(self) -> Option<(K, i32)> {
        match self.first {
            Some(f) => self.slots[f],
            None => None,
        }
    }

    /// The entry in the slot that `last` names.
    pub open spec fn last_entry(self) -> Option<(K, i32)> {
        match self.last {
            Some(l) => self.slots[l],
            None => None,
        }
    }
}

/// At most one slot is the lowest occupied one.
pub proof fn lemma_lowest_unique<K>(slots: Seq<Option<(K, i32)>>, i: int, j: int)
    requires
        is_lowest_occupied(slots, i),
        is_lowest_occupied(slots, j),
    ensures
        i == j,
{
}

/// At most one slot is the highest occupied one.
pub proof fn lemma_highest_unique<K>(slots: Seq<Option<(K, i32)>>, i: int, j: int)
    requires
        is_highest_occupied(slots, i),
        is_highest_occupied(slots, j),
    ensures
        i == j,
{
}

/// What a scan for the endpoints finds, stated slot by slot.
pub proof fn lemma_scan_result<K>(
    slots: Seq<Option<(K, i32)>>,
    first: Option<int>,
    last: Option<int>,
)
    requires
        match first {
            Some(f) => is_lowest_occupied(slots, f),
            None => all_empty(slots),
        },
        match last {
            Some(l) => is_highest_occupied(slots, l),
            None => all_empty(slots),
        },
    ensures
        lowest_occupied(slots) == first,
        highest_occupied(slots) == last,
        first is None <==> all_empty(slots),
        last is None <==> all_empty(slots),
{
    match first {
        Some(f) => {
            lemma_lowest_unique(slots, f, choose|i: int| is_lowest_occupied(slots, i));
        },
        None => {},
    }
    match last {
        Some(l) => {
            lemma_highest_unique(slots, l, choose|i: int| is_highest_occupied(slots, i));
        },
        None => {},
    }
}

/// A scan finds endpoints exactly when some slot is occupied.
pub proof fn lemma_scan_exists<K>(slots: Seq<Option<(K, i32)>>)
    ensures
        lowest_occupied(slots) is None <==> all_empty(slots),
        highest_occupied(slots) is None <==> all_empty(slots),
        lowest_occupied(slots) matches Some(f) ==> is_lowest_occupied(slots, f),
        highest_occupied(slots) matches Some(l) ==> is_highest_occupied(slots, l),
{
    if !all_empty(slots) {
        let i = choose|i: int| 0 <= i < slots.len() && slots[i] is Some;
        lemma_lowest_below(slots, i);
        lemma_highest_above(slots, i);
    }
}

/// Below or at any occupied slot lies the lowest occupied one.
proof fn lemma_lowest_below<K>(slots: Seq<Option<(K, i32)>>, i: int)
    requires
        0 <= i < slots.len(),
        slots[i] is Some,
    ensures
        exists|f: int| is_lowest_occupied(slots, f),
    decreases i,
{
    if !is_lowest_occupied(slots, i) {
        let j = choose|j: int| 0 <= j < i && slots[j] is Some;
        lemma_lowest_below(slots, j);
    }
}

/// Above or at any occupied slot lies the highest occupied one.
proof fn lemma_highest_above<K>(slots: Seq<Option<(K, i32)>>, i: int)
    requires
        0 <= i < slots.len(),
        slots[i] is Some,
    ensures
        exists|l: int| is_highest_occupied(slots, l),
    decreases slots.len() - i,
{
    if !is_highest_occupied(slots, i) {
        let j = choose|j: int| i < j < slots.len() && slots[j] is Some;
        lemma_highest_above(slots, j);
    }
}

/// Insertion and removal keep the endpoints valid.
pub proof fn lemma_valid_preserved<K>(state: TableState<K>, start: int, key: K, value: i32)
    requires
        state.valid(),
        0 <= start < state.slots.len(),
    ensures
        state.insert(start, key, value).valid(),
        state.remove(start, key).valid(),
        state.insert(start, key, value).slots.len() == state.slots.len(),
        state.remove(start, key).slots.len() == state.slots.len(),
{
    if probe_end(state.slots, start, key) is Some {
        let n = lemma_probe_end_some(state.slots, start, key);
        let j = probe_end(state.slots, start, key)->0;
        lemma_scan_exists(state.slots.update(j, None));
    }
}

/// Removing a key that is not found leaves the whole state as it was, the
/// endpoints included.
pub proof fn law_remove_absent<K>(state: TableState<K>, start: int, key: K)
    requires
        0 <= start < state.slots.len(),
        state.get(start, key) is None,
    ensures
        state.remove(start, key) == state,
{
    if probe_end(state.slots, start, key) is Some {
        let n = lemma_probe_end_some(state.slots, start, key);
    }
}

/// What a successful insertion does to the endpoints: the pair just written
/// is the last entry, and the first entry stays where it was unless the
/// table was empty, in which case the new pair is the first entry too.
pub proof fn law_insert_endpoints<K>(state: TableState<K>, start: int, key: K, value: i32)
    requires
        state.valid(),
        0 <= start < state.slots.len(),
        state.has_room(start, key),
    ensures
        state.insert(start, key, value).last_entry() == Some((key, value)),
        state.first is Some ==> state.insert(start, key, value).first == state.first,
        state.first is None ==> state.insert(start, key, value).first_entry() == Some(
            (key, value),
        ),
{
    let n = lemma_probe_end_some(state.slots, start, key);
}

/// A removal that empties neither endpoint's slot leaves both endpoints and
/// their entries as they were.
pub proof fn law_inner_removal_keeps_endpoints<K>(state: TableState<K>, start: int, key: K)
    requires
        state.valid(),
        0 <= start < state.slots.len(),
        probe_end(state.slots, start, key) != state.first,
        probe_end(state.slots, start, key) != state.last,
    ensures
        state.remove(start, key).first == state.first,
        state.remove(start, key).last == state.last,
        state.remove(start, key).first_entry() == state.first_entry(),
        state.remove(start, key).last_entry() == state.last_entry(),
{
    if probe_end(state.slots, start, key) is Some {
        let n = lemma_probe_end_some(state.slots, start, key);
    }
}

} // verus!
