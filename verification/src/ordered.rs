//! The abstract state of a table that keeps its keys in two queues, and what
//! holds of it.
//!
//! One queue lists the keys in the order in which they entered the table,
//! oldest first. A key enters at the back when it is first inserted, keeps
//! its place when its value is replaced, and leaves when it is removed.
//!
//! The other queue lists the same keys in the order in which they were last
//! written. Every accepted insertion, of a new key or of a key already
//! present, puts the key at the back of this queue.

use vstd::prelude::*;

verus! {

/// The queue without `key`: the other keys in their order.
pub open spec fn without(queue: Seq<Seq<char>>, key: Seq<char>) -> Seq<Seq<char>> {
    if queue.contains(key) {
        queue.remove(queue.index_of(key))
    } else {
        queue
    }
}

/// The abstract state of a table that keeps its keys in queues.
pub ghost struct OrderedState {
    /// The keys present, in order of entry, oldest first.
    pub order: Seq<Seq<char>>,
    /// The keys present, in order of their last write, oldest first.
    pub recent: Seq<Seq<char>>,
    /// The value of each key present.
    pub map: Map<Seq<char>, i32>,
    /// The largest number of keys the table accepts.
    pub capacity: nat,
}

impl OrderedState {
    /// The empty table with room for `capacity` keys.
    pub open spec fn empty(capacity: nat) -> Self {
        OrderedState { order: Seq::empty(), recent: Seq::empty(), map: Map::empty(), capacity }
    }

    /// Each queue lists exactly the keys of the map, each once, and the table
    /// holds no more keys than its capacity.
    pub open spec fn valid(self) -> bool {
        &&& self.order.no_duplicates()
        &&& self.recent.no_duplicates()
        &&& self.map.dom().finite()
        &&& self.map.len() <= self.capacity
        &&& self.order.len() == self.map.len()
        &&& self.recent.len() == self.map.len()
        &&& forall|key: Seq<char>| self.map.contains_key(key) <==> self.order.contains(key)
        &&& forall|key: Seq<char>| self.map.contains_key(key) <==> self.recent.contains(key)
    }

    /// The value stored for `key`.
    pub open spec fn get(self, key: Seq<char>) -> Option<i32> {
        if self.map.contains_key(key) {
            Some(self.map[key])
        } else {
            None
        }
    }

    /// Whether an insertion of `key` is accepted: the key is present already
    /// or the table is below its capacity.
    pub open spec fn has_room(self, key: Seq<char>) -> bool {
        self.map.contains_key(key) || self.map.len() != self.capacity
    }

    /// The state after inserting `key` with `value`.
    ///
    /// An accepted key becomes the most recently written one. A key that is
    /// new also enters at the back of the order of entry; a key that is
    /// present keeps its place there.
    pub open spec fn insert(self, key: Seq<char>, value: i32) -> Self {
        if self.map.contains_key(key) {
            OrderedState {
                order: self.order,
                recent: without(self.recent, key).push(key),
                map: self.map.insert(key, value),
                capacity: self.capacity,
            }
        } else if self.map.len() != self.capacity {
            OrderedState {
                order: self.order.push(key),
                recent: self.recent.push(key),
                map: self.map.insert(key, value),
                capacity: self.capacity,
            }
        } else {
            self
        }
    }

    /// The state after removing `key`.
    pub open spec fn remove(self, key: Seq<char>) -> Self {
        if self.map.contains_key(key) {
            OrderedState {
                order: without(self.order, key),
                recent: without(self.recent, key),
                map: self.map.remove(key),
                capacity: self.capacity,
            }
        } else {
            self
        }
    }

    /// The key that entered the table earliest, with its value.
    pub open spec fn first_entry(self) -> Option<(Seq<char>, i32)> {
        if self.order.len() > 0 {
            Some((self.order.first(), self.map[self.order.first()]))
        } else {
            None
        }
    }

    /// The key written most recently, with its value.
    pub open spec fn last_entry(self) -> Option<(Seq<char>, i32)> {
        if self.recent.len() > 0 {
            Some((self.recent.last(), self.map[self.recent.last()]))
        } else {
            None
        }
    }
}

/// In a sequence without repetitions, an element's index is the one index
/// at which it occurs.
pub proof fn lemma_index_of(order: Seq<Seq<char>>, key: Seq<char>, at: int)
    requires
        order.no_duplicates(),
        0 <= at < order.len(),
        order[at] == key,
    ensures
        order.index_of(key) == at,
        order.contains(key),
{
    let i = order.index_of(key);
    assert(0 <= i < order.len() && order[i] == key);
}

/// A queue without one of its keys: one key shorter, still free of
/// repetitions, and holding exactly the other keys.
pub proof fn lemma_without(queue: Seq<Seq<char>>, key: Seq<char>)
    requires
        queue.no_duplicates(),
    ensures
        without(queue, key).no_duplicates(),
        !without(queue, key).contains(key),
        queue.contains(key) ==> without(queue, key).len() == queue.len() - 1,
        forall|k: Seq<char>| without(queue, key).contains(k) <==> queue.contains(k) && k != key,
{
    let after = without(queue, key);
    if queue.contains(key) {
        let at = queue.index_of(key);
        queue.remove_ensures(at);
        assert forall|i: int, j: int|
            0 <= i < after.len() && 0 <= j < after.len() && i != j implies after[i] != after[j] by {
            let si = if i < at { i } else { i + 1 };
            let sj = if j < at { j } else { j + 1 };
            assert(after[i] == queue[si]);
            assert(after[j] == queue[sj]);
        }
        assert forall|k: Seq<char>| after.contains(k) <==> queue.contains(k) && k != key by {
            if after.contains(k) {
                let i = after.index_of(k);
                let si = if i < at { i } else { i + 1 };
                assert(queue[si] == k);
                assert(queue.contains(k));
            }
            if queue.contains(k) && k != key {
                let i = queue.index_of(k);
                let di = if i < at { i } else { i - 1 };
                assert(after[di] == k);
            }
        }
    }
}

/// A queue with a further key at its back: one key longer, still free of
/// repetitions, and holding the further key beside the others.
pub proof fn lemma_push_new(queue: Seq<Seq<char>>, key: Seq<char>)
    requires
        queue.no_duplicates(),
        !queue.contains(key),
    ensures
        queue.push(key).no_duplicates(),
        forall|k: Seq<char>| queue.push(key).contains(k) <==> queue.contains(k) || k == key,
{
    let after = queue.push(key);
    assert forall|i: int, j: int|
        0 <= i < after.len() && 0 <= j < after.len() && i != j implies after[i] != after[j] by {
        if i == queue.len() {
            assert(queue[j] == after[j]);
        } else if j == queue.len() {
            assert(queue[i] == after[i]);
        }
    }
    assert forall|k: Seq<char>| after.contains(k) <==> queue.contains(k) || k == key by {
        if queue.contains(k) {
            let i = queue.index_of(k);
            assert(after[i] == k);
        }
        if k == key {
            assert(after[queue.len() as int] == k);
        }
        if after.contains(k) && k != key {
            let i = after.index_of(k);
            assert(queue[i] == k);
        }
    }
}

/// Insertion keeps a state valid.
pub proof fn lemma_insert_valid(state: OrderedState, key: Seq<char>, value: i32)
    requires
        state.valid(),
    ensures
        state.insert(key, value).valid(),
{
    let after = state.insert(key, value);
    if state.map.contains_key(key) {
        assert(after.map.dom() =~= state.map.dom());
        assert(state.recent.contains(key));
        let rest = without(state.recent, key);
        lemma_without(state.recent, key);
        lemma_push_new(rest, key);
        assert forall|k: Seq<char>| after.map.contains_key(k) <==> after.recent.contains(k) by {
            assert(rest.contains(k) <==> state.recent.contains(k) && k != key);
            assert(after.recent.contains(k) <==> rest.contains(k) || k == key);
        }
        assert forall|k: Seq<char>| after.map.contains_key(k) <==> after.order.contains(k) by {}
    } else if state.map.len() != state.capacity {
        assert(!state.order.contains(key));
        assert(!state.recent.contains(key));
        lemma_push_new(state.order, key);
        lemma_push_new(state.recent, key);
        assert forall|k: Seq<char>| after.map.contains_key(k) <==> after.order.contains(k) by {
            assert(after.order.contains(k) <==> state.order.contains(k) || k == key);
        }
        assert forall|k: Seq<char>| after.map.contains_key(k) <==> after.recent.contains(k) by {
            assert(after.recent.contains(k) <==> state.recent.contains(k) || k == key);
        }
    }
}

/// Removal keeps a state valid.
pub proof fn lemma_remove_valid(state: OrderedState, key: Seq<char>)
    requires
        state.valid(),
    ensures
        state.remove(key).valid(),
{
    let after = state.remove(key);
    if state.map.contains_key(key) {
        assert(state.order.contains(key));
        assert(state.recent.contains(key));
        lemma_without(state.order, key);
        lemma_without(state.recent, key);
        assert forall|k: Seq<char>| after.map.contains_key(k) <==> after.order.contains(k) by {
            assert(after.order.contains(k) <==> state.order.contains(k) && k != key);
        }
        assert forall|k: Seq<char>| after.map.contains_key(k) <==> after.recent.contains(k) by {
            assert(after.recent.contains(k) <==> state.recent.contains(k) && k != key);
        }
    }
}

/// A stored key is found again: after a successful insertion of `key` with
/// `value`, a lookup of `key` returns `value`.
pub proof fn law_insert_then_get(state: OrderedState, key: Seq<char>, value: i32)
    requires
        state.valid(),
        state.has_room(key),
    ensures
        state.insert(key, value).get(key) == Some(value),
{
}

/// Operations on another key do not disturb a key: its lookup returns the
/// same as before.
pub proof fn law_get_survives(state: OrderedState, key: Seq<char>, other: Seq<char>, value: i32)
    requires
        state.valid(),
        other != key,
    ensures
        state.insert(other, value).get(key) == state.get(key),
        state.remove(other).get(key) == state.get(key),
{
}

/// Inserting a key twice in a row: the second insertion succeeds, the lookup
/// returns the second value, the table holds as many keys as after the first
/// insertion, in the same order of entry, and the key is the last entry.
pub proof fn law_insert_twice(state: OrderedState, key: Seq<char>, first: i32, second: i32)
    requires
        state.valid(),
        state.has_room(key),
    ensures
        state.insert(key, first).has_room(key),
        state.insert(key, first).insert(key, second).get(key) == Some(second),
        state.insert(key, first).insert(key, second).map.len() == state.insert(key, first).map.len(),
        state.insert(key, first).insert(key, second).order == state.insert(key, first).order,
        state.insert(key, first).insert(key, second).last_entry() == Some((key, second)),
{
    lemma_insert_valid(state, key, first);
    lemma_insert_valid(state.insert(key, first), key, second);
}

/// A key that has been inserted and then removed is not found, and removing
/// a key that is not present changes nothing.
pub proof fn law_remove(state: OrderedState, key: Seq<char>, value: i32)
    requires
        state.valid(),
    ensures
        state.insert(key, value).remove(key).get(key) is None,
        state.remove(key).get(key) is None,
        !state.map.contains_key(key) ==> state.remove(key) == state,
{
}

/// When insertion fails: exactly when the key is new and the table holds as
/// many keys as its capacity. A new key that is accepted raises the number
/// of keys by one.
pub proof fn law_full(state: OrderedState, key: Seq<char>, value: i32)
    requires
        state.valid(),
    ensures
        !state.has_room(key) <==> !state.map.contains_key(key) && state.map.len()
            == state.capacity,
        state.map.len() < state.capacity ==> state.has_room(key),
        state.map.contains_key(key) ==> state.has_room(key),
        state.has_room(key) && !state.map.contains_key(key) ==> state.insert(key, value).map.len()
            == state.map.len() + 1,
        !state.has_room(key) ==> state.insert(key, value) == state,
{
}

/// The endpoints are absent exactly when the table is empty, and otherwise
/// they are keys that are present.
pub proof fn law_endpoints_present(state: OrderedState)
    requires
        state.valid(),
    ensures
        state.first_entry() is None <==> state.map.len() == 0,
        state.last_entry() is None <==> state.map.len() == 0,
        state.first_entry() matches Some((key, value)) ==> state.get(key) == Some(value),
        state.last_entry() matches Some((key, value)) ==> state.get(key) == Some(value),
{
    if state.order.len() > 0 {
        assert(state.order.contains(state.order.first()));
        assert(state.recent.contains(state.recent.last()));
    }
}

/// What an accepted insertion does to the endpoints: the pair just written
/// is the last entry, whether the key is new or was present. The first entry
/// is still the key that entered earliest, with its current value; in an
/// empty table that key is the new one.
pub proof fn law_insert_endpoints(state: OrderedState, key: Seq<char>, value: i32)
    requires
        state.valid(),
        state.has_room(key),
    ensures
        state.insert(key, value).last_entry() == Some((key, value)),
        state.order.len() > 0 ==> state.insert(key, value).first_entry() == Some(
            (
                state.order.first(),
                if state.order.first() == key {
                    value
                } else {
                    state.map[state.order.first()]
                },
            ),
        ),
        state.order.len() == 0 ==> state.insert(key, value).first_entry() == Some((key, value)),
{
    lemma_insert_valid(state, key, value);
    if state.order.len() > 0 {
        assert(state.order.contains(state.order.first()));
    }
}

/// What a removal does to the endpoints: an endpoint that is not the removed
/// key stays, with its value.
pub proof fn law_remove_endpoints(state: OrderedState, key: Seq<char>)
    requires
        state.valid(),
    ensures
        state.first_entry() matches Some((first, value)) ==> (first != key ==> state.remove(
            key,
        ).first_entry() == Some((first, value))),
        state.last_entry() matches Some((last, value)) ==> (last != key ==> state.remove(
            key,
        ).last_entry() == Some((last, value))),
{
    lemma_remove_valid(state, key);
    if state.map.contains_key(key) && state.order.len() > 0 {
        let first = state.order.first();
        let last = state.recent.last();
        assert(state.order.contains(key));
        assert(state.recent.contains(key));
        state.order.remove_ensures(state.order.index_of(key));
        state.recent.remove_ensures(state.recent.index_of(key));
        if first != key {
            assert(state.remove(key).order[0] == first);
        }
        if last != key {
            assert(state.remove(key).recent[state.recent.len() - 2] == last);
        }
    }
}

/// The position of `key` in `queue`.
pub open spec fn place(queue: Seq<Seq<char>>, key: Seq<char>) -> int {
    queue.index_of(key)
}

/// Both queues keep their order: two keys that are present before and after
/// an operation on a third key stand in the same order of entry, and in the
/// same order of last write, after it as before.
pub proof fn law_order_kept(
    state: OrderedState,
    key: Seq<char>,
    value: i32,
    a: Seq<char>,
    b: Seq<char>,
)
    requires
        state.valid(),
        state.map.contains_key(a),
        state.map.contains_key(b),
        a != key,
        b != key,
    ensures
        place(state.order, a) < place(state.order, b) <==> place(
            state.insert(key, value).order,
            a,
        ) < place(state.insert(key, value).order, b),
        place(state.order, a) < place(state.order, b) <==> place(state.remove(key).order, a)
            < place(state.remove(key).order, b),
        place(state.recent, a) < place(state.recent, b) <==> place(
            state.insert(key, value).recent,
            a,
        ) < place(state.insert(key, value).recent, b),
        place(state.recent, a) < place(state.recent, b) <==> place(state.remove(key).recent, a)
            < place(state.remove(key).recent, b),
{
    assert(state.order.contains(a) && state.order.contains(b));
    assert(state.recent.contains(a) && state.recent.contains(b));
    lemma_without_keeps_order(state.order, key, a, b);
    lemma_without_keeps_order(state.recent, key, a, b);
    if state.map.contains_key(key) {
        assert(state.order.contains(key) && state.recent.contains(key));
        lemma_without(state.recent, key);
        lemma_push_keeps_order(without(state.recent, key), key, a, b);
    } else if state.map.len() != state.capacity {
        assert(!state.order.contains(key) && !state.recent.contains(key));
        lemma_push_keeps_order(state.order, key, a, b);
        lemma_push_keeps_order(state.recent, key, a, b);
    }
}

/// Taking a key out of a queue leaves the other keys in their order.
proof fn lemma_without_keeps_order(
    queue: Seq<Seq<char>>,
    key: Seq<char>,
    a: Seq<char>,
    b: Seq<char>,
)
    requires
        queue.no_duplicates(),
        queue.contains(a),
        queue.contains(b),
        a != key,
        b != key,
    ensures
        place(queue, a) < place(queue, b) <==> place(without(queue, key), a) < place(
            without(queue, key),
            b,
        ),
{
    lemma_without(queue, key);
    if queue.contains(key) {
        let after = without(queue, key);
        let ia = queue.index_of(a);
        let ib = queue.index_of(b);
        let at = queue.index_of(key);
        queue.remove_ensures(at);
        let da = if ia < at { ia } else { ia - 1 };
        let db = if ib < at { ib } else { ib - 1 };
        assert(after[da] == a);
        assert(after[db] == b);
        lemma_index_of(after, a, da);
        lemma_index_of(after, b, db);
    }
}

/// Putting a further key at the back of a queue leaves the other keys in
/// their order.
proof fn lemma_push_keeps_order(queue: Seq<Seq<char>>, key: Seq<char>, a: Seq<char>, b: Seq<char>)
    requires
        queue.no_duplicates(),
        !queue.contains(key),
        queue.contains(a),
        queue.contains(b),
    ensures
        place(queue, a) < place(queue, b) <==> place(queue.push(key), a) < place(
            queue.push(key),
            b,
        ),
{
    lemma_push_new(queue, key);
    let after = queue.push(key);
    let ia = queue.index_of(a);
    let ib = queue.index_of(b);
    assert(after[ia] == a);
    assert(after[ib] == b);
    lemma_index_of(after, a, ia);
    lemma_index_of(after, b, ib);
}

} // verus!
