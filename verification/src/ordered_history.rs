//! The queue-backed table seen through the operations that made it.
//!
//! A history is the sequence of insertions and removals applied to an empty
//! table. It gives every key present two stamps: the step at which the key
//! entered the table and the step at which it was last written. The queues
//! of the table are sorted by these stamps, so after every history the first
//! entry is the key that entered earliest among those present and the last
//! entry is the key written most recently.

use crate::ordered::{lemma_insert_valid, lemma_remove_valid, without, OrderedState};
use vstd::prelude::*;

verus! {

/// One operation that changes a queue-backed table.
pub ghost enum QueueOp {
    /// Insert `key` with `value`.
    Insert { key: Seq<char>, value: i32 },
    /// Remove `key`.
    Remove { key: Seq<char> },
}

/// The state after one operation.
pub open spec fn apply(state: OrderedState, op: QueueOp) -> OrderedState {
    match op {
        QueueOp::Insert { key, value } => state.insert(key, value),
        QueueOp::Remove { key } => state.remove(key),
    }
}

/// The table with room for `capacity` keys that the operations `ops` make of
/// an empty one.
pub open spec fn history(capacity: nat, ops: Seq<QueueOp>) -> OrderedState
    decreases ops.len(),
{
    if ops.len() == 0 {
        OrderedState::empty(capacity)
    } else {
        apply(history(capacity, ops.drop_last()), ops.last())
    }
}

/// The operation writes `key`: it is an insertion of `key` that the table
/// accepts.
pub open spec fn writes(state: OrderedState, op: QueueOp, key: Seq<char>) -> bool {
    op matches QueueOp::Insert { key: written, .. } && written == key && state.has_room(key)
}

/// The operation brings `key` into the table: it writes `key`, which was not
/// present.
pub open spec fn brings(state: OrderedState, op: QueueOp, key: Seq<char>) -> bool {
    writes(state, op, key) && !state.map.contains_key(key)
}

/// The step of `ops` at which `key`, as now present, entered the table.
pub open spec fn entered_at(capacity: nat, ops: Seq<QueueOp>, key: Seq<char>) -> int
    decreases ops.len(),
{
    if ops.len() == 0 {
        -1
    } else if brings(history(capacity, ops.drop_last()), ops.last(), key) {
        ops.len() - 1
    } else {
        entered_at(capacity, ops.drop_last(), key)
    }
}

/// The step of `ops` at which `key` was last written.
pub open spec fn written_at(capacity: nat, ops: Seq<QueueOp>, key: Seq<char>) -> int
    decreases ops.len(),
{
    if ops.len() == 0 {
        -1
    } else if writes(history(capacity, ops.drop_last()), ops.last(), key) {
        ops.len() - 1
    } else {
        written_at(capacity, ops.drop_last(), key)
    }
}

/// The order of entry lists the keys by the step at which they entered, and
/// the order of last write lists them by the step of their last write; every
/// stamp of a key present lies within the history.
pub open spec fn queues_by_age(capacity: nat, ops: Seq<QueueOp>) -> bool {
    let state = history(capacity, ops);
    &&& forall|i: int, j: int|
        0 <= i < j < state.order.len() ==> entered_at(capacity, ops, #[trigger] state.order[i])
            < entered_at(capacity, ops, #[trigger] state.order[j])
    &&& forall|i: int, j: int|
        0 <= i < j < state.recent.len() ==> written_at(capacity, ops, #[trigger] state.recent[i])
            < written_at(capacity, ops, #[trigger] state.recent[j])
    &&& forall|key: Seq<char>| #[trigger]
        state.map.contains_key(key) ==> 0 <= entered_at(capacity, ops, key) <= written_at(
            capacity,
            ops,
            key,
        ) < ops.len()
}

/// Every history is a valid table whose queues are sorted by age.
pub proof fn lemma_queues_by_age(capacity: nat, ops: Seq<QueueOp>)
    ensures
        history(capacity, ops).valid(),
        queues_by_age(capacity, ops),
    decreases ops.len(),
{
    if ops.len() > 0 {
        let earlier = ops.drop_last();
        let op = ops.last();
        let before = history(capacity, earlier);
        let after = history(capacity, ops);
        lemma_queues_by_age(capacity, earlier);
        match op {
            QueueOp::Insert { key, value } => {
                lemma_insert_valid(before, key, value);
                if before.map.contains_key(key) {
                    assert(before.recent.contains(key));
                    let at = before.recent.index_of(key);
                    before.recent.remove_ensures(at);
                    let rest = without(before.recent, key);
                    assert forall|i: int, j: int| 0 <= i < j < after.recent.len() implies written_at(
                        capacity,
                        ops,
                        #[trigger] after.recent[i],
                    ) < written_at(capacity, ops, #[trigger] after.recent[j]) by {
                        let si = if i < at { i } else { i + 1 };
                        assert(after.recent[i] == rest[i]);
                        assert(rest[i] == before.recent[si]);
                        assert(before.recent.contains(before.recent[si]));
                        assert(before.recent[si] != key);
                        if j < rest.len() {
                            let sj = if j < at { j } else { j + 1 };
                            assert(after.recent[j] == rest[j]);
                            assert(rest[j] == before.recent[sj]);
                            assert(before.recent[sj] != key);
                        } else {
                            assert(after.recent[j] == key);
                        }
                    }
                    assert forall|i: int, j: int| 0 <= i < j < after.order.len() implies entered_at(
                        capacity,
                        ops,
                        #[trigger] after.order[i],
                    ) < entered_at(capacity, ops, #[trigger] after.order[j]) by {
                        assert(after.order[i] == before.order[i]);
                        assert(after.order[j] == before.order[j]);
                    }
                } else if before.map.len() != before.capacity {
                    assert(!before.order.contains(key));
                    assert(!before.recent.contains(key));
                    assert forall|i: int, j: int| 0 <= i < j < after.recent.len() implies written_at(
                        capacity,
                        ops,
                        #[trigger] after.recent[i],
                    ) < written_at(capacity, ops, #[trigger] after.recent[j]) by {
                        assert(after.recent[i] == before.recent[i]);
                        assert(before.recent.contains(before.recent[i]));
                        if j < before.recent.len() {
                            assert(after.recent[j] == before.recent[j]);
                            assert(before.recent.contains(before.recent[j]));
                        }
                    }
                    assert forall|i: int, j: int| 0 <= i < j < after.order.len() implies entered_at(
                        capacity,
                        ops,
                        #[trigger] after.order[i],
                    ) < entered_at(capacity, ops, #[trigger] after.order[j]) by {
                        assert(after.order[i] == before.order[i]);
                        assert(before.order.contains(before.order[i]));
                        if j < before.order.len() {
                            assert(after.order[j] == before.order[j]);
                            assert(before.order.contains(before.order[j]));
                        }
                    }
                }
            },
            QueueOp::Remove { key } => {
                lemma_remove_valid(before, key);
                if before.map.contains_key(key) {
                    assert(before.order.contains(key));
                    assert(before.recent.contains(key));
                    let at = before.order.index_of(key);
                    let rat = before.recent.index_of(key);
                    before.order.remove_ensures(at);
                    before.recent.remove_ensures(rat);
                    assert forall|i: int, j: int| 0 <= i < j < after.order.len() implies entered_at(
                        capacity,
                        ops,
                        #[trigger] after.order[i],
                    ) < entered_at(capacity, ops, #[trigger] after.order[j]) by {
                        let si = if i < at { i } else { i + 1 };
                        let sj = if j < at { j } else { j + 1 };
                        assert(after.order[i] == before.order[si]);
                        assert(after.order[j] == before.order[sj]);
                    }
                    assert forall|i: int, j: int| 0 <= i < j < after.recent.len() implies written_at(
                        capacity,
                        ops,
                        #[trigger] after.recent[i],
                    ) < written_at(capacity, ops, #[trigger] after.recent[j]) by {
                        let si = if i < rat { i } else { i + 1 };
                        let sj = if j < rat { j } else { j + 1 };
                        assert(after.recent[i] == before.recent[si]);
                        assert(after.recent[j] == before.recent[sj]);
                    }
                }
            },
        }
    }
}

/// The endpoints mean what they are meant to mean: after every history the
/// first entry is the key that entered the table before every other key
/// present, and the last entry is the key written after every other,
/// whether that write brought the key in or replaced its value. Both are
/// absent exactly when the table is empty.
pub proof fn law_endpoints(capacity: nat, ops: Seq<QueueOp>)
    ensures
        history(capacity, ops).valid(),
        history(capacity, ops).first_entry() is None <==> history(capacity, ops).map.len() == 0,
        history(capacity, ops).last_entry() is None <==> history(capacity, ops).map.len() == 0,
        history(capacity, ops).first_entry() matches Some((first, value)) ==> {
            &&& history(capacity, ops).get(first) == Some(value)
            &&& forall|key: Seq<char>| #[trigger]
                history(capacity, ops).map.contains_key(key) && key != first ==> entered_at(
                    capacity,
                    ops,
                    first,
                ) < entered_at(capacity, ops, key)
        },
        history(capacity, ops).last_entry() matches Some((last, value)) ==> {
            &&& history(capacity, ops).get(last) == Some(value)
            &&& forall|key: Seq<char>| #[trigger]
                history(capacity, ops).map.contains_key(key) && key != last ==> written_at(
                    capacity,
                    ops,
                    key,
                ) < written_at(capacity, ops, last)
        },
{
    lemma_queues_by_age(capacity, ops);
    let state = history(capacity, ops);
    if state.order.len() > 0 {
        let first = state.order.first();
        let last = state.recent.last();
        assert(state.order.contains(first));
        assert(state.recent.contains(last));
        assert forall|key: Seq<char>| #[trigger]
            state.map.contains_key(key) && key != first implies entered_at(capacity, ops, first)
            < entered_at(capacity, ops, key) by {
            assert(state.order.contains(key));
            let i = state.order.index_of(key);
            assert(state.order[i] == key);
            assert(state.order[0] == first);
        }
        assert forall|key: Seq<char>| #[trigger]
            state.map.contains_key(key) && key != last implies written_at(capacity, ops, key)
            < written_at(capacity, ops, last) by {
            assert(state.recent.contains(key));
            let i = state.recent.index_of(key);
            assert(state.recent[i] == key);
            assert(state.recent[state.recent.len() - 1] == last);
        }
    }
}

} // verus!
