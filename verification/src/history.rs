//! Tables seen through the operations that made them.
//!
//! A history is the sequence of insertions and removals applied to an empty
//! table. It gives every occupied slot two stamps: the step at which its
//! entry came into the table and the step at which it was last written. With
//! these the meaning of the endpoints can be stated: `first` is the entry
//! that came in earliest, `last` the one written latest.
//!
//! That meaning survives every insertion and every removal that leaves both
//! endpoints in place. A removal that empties an endpoint's slot makes the
//! table scan for its endpoints by slot index, and what the scan finds need
//! not be the oldest and the newest entry. The statement proved here is
//! therefore made of histories in which every scan happens to find them.

use crate::endpoints::{lemma_valid_preserved, TableState};
use crate::laws::{
    law_lookup_survives_put, law_lookup_survives_take, law_put_then_lookup, lemma_occupancy_bound,
    on_the_way,
};
use crate::probe::{lemma_probe_end_some, occupancy, occupied, probe_end, put, take};
use vstd::prelude::*;

verus! {

/// One operation that changes a table.
pub ghost enum Op<K> {
    /// Insert `key` with `value`, probing from `start`.
    Insert { start: int, key: K, value: i32 },
    /// Remove `key`, probing from `start`.
    Remove { start: int, key: K },
}

impl<K> Op<K> {
    /// The slot from which the operation probes.
    pub open spec fn start(self) -> int {
        match self {
            Op::Insert { start, .. } => start,
            Op::Remove { start, .. } => start,
        }
    }

    /// The key that the operation is about.
    pub open spec fn key(self) -> K {
        match self {
            Op::Insert { key, .. } => key,
            Op::Remove { key, .. } => key,
        }
    }
}

/// The state after one operation.
pub open spec fn apply<K>(state: TableState<K>, op: Op<K>) -> TableState<K> {
    match op {
        Op::Insert { start, key, value } => state.insert(start, key, value),
        Op::Remove { start, key } => state.remove(start, key),
    }
}

/// The state after a sequence of operations, applied in order.
pub open spec fn run<K>(state: TableState<K>, ops: Seq<Op<K>>) -> TableState<K>
    decreases ops.len(),
{
    if ops.len() == 0 {
        state
    } else {
        apply(run(state, ops.drop_last()), ops.last())
    }
}

/// The table of `cap` slots that the operations `ops` make of an empty one.
pub open spec fn history<K>(cap: nat, ops: Seq<Op<K>>) -> TableState<K> {
    run(TableState::empty(cap), ops)
}

/// Every operation probes from a slot of a table of `cap` slots.
pub open spec fn starts_within<K>(ops: Seq<Op<K>>, cap: nat) -> bool {
    forall|i: int| 0 <= i < ops.len() ==> 0 <= (#[trigger] ops[i]).start() < cap
}

/// The operation writes a pair into `slot`.
pub open spec fn writes<K>(state: TableState<K>, op: Op<K>, slot: int) -> bool {
    op matches Op::Insert { start, key, .. } && probe_end(state.slots, start, key) == Some(slot)
}

/// The operation puts a new entry into the empty `slot`.
pub open spec fn fills<K>(state: TableState<K>, op: Op<K>, slot: int) -> bool {
    writes(state, op, slot) && state.slots[slot] is None
}

/// The operation is a removal that empties the slot of an endpoint, so that
/// the table scans for its endpoints.
pub open spec fn rescans<K>(state: TableState<K>, op: Op<K>) -> bool {
    op matches Op::Remove { start, key } && probe_end(state.slots, start, key) matches Some(j)
        && state.slots[j] is Some && (state.first == Some(j) || state.last == Some(j))
}

/// The step of `ops` at which the entry now in `slot` came into the table.
pub open spec fn born_at<K>(cap: nat, ops: Seq<Op<K>>, slot: int) -> int
    decreases ops.len(),
{
    if ops.len() == 0 {
        -1
    } else if fills(history(cap, ops.drop_last()), ops.last(), slot) {
        ops.len() - 1
    } else {
        born_at(cap, ops.drop_last(), slot)
    }
}

/// The step of `ops` at which `slot` was last written.
pub open spec fn written_at<K>(cap: nat, ops: Seq<Op<K>>, slot: int) -> int
    decreases ops.len(),
{
    if ops.len() == 0 {
        -1
    } else if writes(history(cap, ops.drop_last()), ops.last(), slot) {
        ops.len() - 1
    } else {
        written_at(cap, ops.drop_last(), slot)
    }
}

/// After `ops`, `first` names the entry that came in before every other
/// entry present, and `last` the entry written after every other.
pub open spec fn endpoints_agree<K>(cap: nat, ops: Seq<Op<K>>) -> bool {
    let state = history(cap, ops);
    &&& state.first matches Some(f) ==> forall|j: int|
        0 <= j < cap && state.slots[j] is Some && j != f ==> born_at(cap, ops, f) < #[trigger] born_at(
            cap,
            ops,
            j,
        )
    &&& state.last matches Some(l) ==> forall|j: int|
        0 <= j < cap && state.slots[j] is Some && j != l ==> #[trigger] written_at(cap, ops, j)
            < written_at(cap, ops, l)
}

/// Every scan for the endpoints in the course of `ops` finds the oldest and
/// the newest entry.
pub open spec fn scans_agree<K>(cap: nat, ops: Seq<Op<K>>) -> bool {
    forall|i: int|
        0 <= i < ops.len() && rescans(history(cap, #[trigger] ops.take(i)), ops[i])
            ==> endpoints_agree(cap, ops.take(i + 1))
}

/// The stamps of every occupied slot lie within the history, the birth not
/// after the last write.
pub open spec fn stamps_bounded<K>(cap: nat, ops: Seq<Op<K>>) -> bool {
    forall|j: int|
        0 <= j < cap && (#[trigger] history(cap, ops).slots[j]) is Some ==> 0 <= born_at(
            cap,
            ops,
            j,
        ) <= written_at(cap, ops, j) < ops.len()
}

/// The slots of a state change under insertion and removal as `put` and
/// `take` say.
pub proof fn lemma_apply_slots<K>(state: TableState<K>, op: Op<K>)
    requires
        0 <= op.start() < state.slots.len(),
    ensures
        apply(state, op).slots == (match op {
            Op::Insert { start, key, value } => put(state.slots, start, key, value),
            Op::Remove { start, key } => take(state.slots, start, key),
        }),
{
    match op {
        Op::Insert { start, key, value } => {},
        Op::Remove { start, key } => {
            if probe_end(state.slots, start, key) is Some {
                let n = lemma_probe_end_some(state.slots, start, key);
                assert(apply(state, op).slots =~= take(state.slots, start, key));
            }
        },
    }
}

/// Every history is a valid table of its capacity, with stamps that lie
/// within the history.
pub proof fn lemma_history_valid<K>(cap: nat, ops: Seq<Op<K>>)
    requires
        starts_within(ops, cap),
    ensures
        history(cap, ops).valid(),
        history(cap, ops).slots.len() == cap,
        stamps_bounded(cap, ops),
    decreases ops.len(),
{
    if ops.len() > 0 {
        let earlier = ops.drop_last();
        let op = ops.last();
        assert(ops[ops.len() - 1] == op);
        assert forall|i: int| 0 <= i < earlier.len() implies 0 <= (#[trigger] earlier[i]).start()
            < cap by {
            assert(earlier[i] == ops[i]);
        }
        lemma_history_valid(cap, earlier);
        let before = history(cap, earlier);
        lemma_valid_preserved(before, op.start(), op.key(), 0);
        match op {
            Op::Insert { start, key, value } => {
                lemma_valid_preserved(before, start, key, value);
                if probe_end(before.slots, start, key) is Some {
                    let n = lemma_probe_end_some(before.slots, start, key);
                }
            },
            Op::Remove { start, key } => {
                if probe_end(before.slots, start, key) is Some {
                    let n = lemma_probe_end_some(before.slots, start, key);
                }
            },
        }
        assert forall|j: int|
            0 <= j < cap && (#[trigger] history(cap, ops).slots[j]) is Some implies 0 <= born_at(
            cap,
            ops,
            j,
        ) <= written_at(cap, ops, j) < ops.len() by {
            if !writes(before, op, j) {
                assert(before.slots[j] is Some);
            }
        }
    }
}

/// The endpoints mean what they are meant to mean: after any history in
/// which every scan finds the oldest and the newest entry, `first` names the
/// entry that came into the table earliest among those present and `last`
/// the entry written most recently; both are absent exactly when the table
/// is empty.
pub proof fn law_endpoints<K>(cap: nat, ops: Seq<Op<K>>)
    requires
        starts_within(ops, cap),
        scans_agree(cap, ops),
    ensures
        endpoints_agree(cap, ops),
        history(cap, ops).valid(),
        history(cap, ops).first is None <==> occupancy(history(cap, ops).slots) == 0,
        history(cap, ops).last is None <==> occupancy(history(cap, ops).slots) == 0,
    decreases ops.len(),
{
    lemma_history_valid(cap, ops);
    lemma_occupancy_bound(history(cap, ops).slots);
    if ops.len() > 0 {
        let earlier = ops.drop_last();
        let op = ops.last();
        let t = ops.len() - 1;
        assert(ops[t] == op);
        assert(ops.take(t) =~= earlier);
        assert(ops.take(t + 1) =~= ops);
        let before = history(cap, earlier);
        let after = history(cap, ops);
        if !rescans(before, op) {
            assert forall|i: int| 0 <= i < earlier.len() implies 0 <= (#[trigger] earlier[i]).start()
                < cap by {
                assert(earlier[i] == ops[i]);
            }
            assert forall|i: int|
                0 <= i < earlier.len() && rescans(
                    history(cap, #[trigger] earlier.take(i)),
                    earlier[i],
                ) implies endpoints_agree(cap, earlier.take(i + 1)) by {
                assert(earlier.take(i) =~= ops.take(i));
                assert(earlier.take(i + 1) =~= ops.take(i + 1));
                assert(earlier[i] == ops[i]);
            }
            law_endpoints(cap, earlier);
            lemma_history_valid(cap, earlier);
            if probe_end(before.slots, op.start(), op.key()) is Some {
                let n = lemma_probe_end_some(before.slots, op.start(), op.key());
            }
            match after.first {
                Some(f) => {
                    assert forall|j: int|
                        0 <= j < cap && after.slots[j] is Some && j != f implies born_at(
                        cap,
                        ops,
                        f,
                    ) < #[trigger] born_at(cap, ops, j) by {
                        if !fills(before, op, j) {
                            assert(before.slots[j] is Some);
                            assert(born_at(cap, earlier, f) < born_at(cap, earlier, j));
                        } else {
                            assert(before.slots[f] is Some);
                        }
                    }
                },
                None => {},
            }
            match after.last {
                Some(l) => {
                    assert forall|j: int|
                        0 <= j < cap && after.slots[j] is Some && j != l implies #[trigger] written_at(
                        cap,
                        ops,
                        j,
                    ) < written_at(cap, ops, l) by {
                        assert(before.slots[j] is Some);
                        if !writes(before, op, l) {
                            assert(written_at(cap, earlier, j) < written_at(cap, earlier, l));
                        }
                    }
                },
                None => {},
            }
        }
    }
}

/// A table with at most one entry has that entry at both endpoints, so a
/// scan that leaves no more than one entry always agrees.
pub proof fn lemma_few_entries_agree<K>(cap: nat, ops: Seq<Op<K>>)
    requires
        starts_within(ops, cap),
        occupancy(history(cap, ops).slots) <= 1,
    ensures
        endpoints_agree(cap, ops),
{
    lemma_history_valid(cap, ops);
    let state = history(cap, ops);
    lemma_occupancy_bound(state.slots);
    assert forall|i: int, j: int|
        0 <= i < cap && 0 <= j < cap && state.slots[i] is Some && state.slots[j] is Some implies i
        == j by {
        if i != j {
            let pair = set![i, j];
            assert(pair.subset_of(occupied(state.slots)));
            vstd::set_lib::lemma_len_subset(pair, occupied(state.slots));
            assert(pair =~= set![i].insert(j));
        }
    }
}

/// A key that went in stays found: after a successful insertion of `key`
/// with `value`, `key` is found with `value` for as long as the operations
/// that follow are about other keys and no removal among them empties a slot
/// on the way to `key`.
pub proof fn law_round_trip<K>(
    state: TableState<K>,
    start: int,
    key: K,
    value: i32,
    later: Seq<Op<K>>,
)
    requires
        0 <= start < state.slots.len(),
        starts_within(later, state.slots.len()),
        state.has_room(start, key),
        forall|i: int| 0 <= i < later.len() ==> (#[trigger] later[i]).key() != key,
        forall|i: int|
            0 <= i < later.len() ==> (#[trigger] later[i] matches Op::Remove { start: from, key: other }
                ==> (probe_end(
                run(state.insert(start, key, value), later.take(i)).slots,
                from,
                other,
            ) matches Some(j) ==> !on_the_way(
                run(state.insert(start, key, value), later.take(i)).slots,
                start,
                key,
                j,
            ))),
    ensures
        run(state.insert(start, key, value), later).get(start, key) == Some(value),
        run(state.insert(start, key, value), later).slots.len() == state.slots.len(),
    decreases later.len(),
{
    let stored = state.insert(start, key, value);
    if later.len() == 0 {
        law_put_then_lookup(state.slots, start, key, value);
    } else {
        let earlier = later.drop_last();
        let op = later.last();
        let t = later.len() - 1;
        assert(later[t] == op);
        assert(later.take(t) =~= earlier);
        assert forall|i: int| 0 <= i < earlier.len() implies 0 <= (#[trigger] earlier[i]).start()
            < state.slots.len() && earlier[i].key() != key by {
            assert(earlier[i] == later[i]);
        }
        assert forall|i: int| 0 <= i < earlier.len() implies (#[trigger] earlier[i] matches Op::Remove {
            start: from,
            key: other,
        } ==> (probe_end(run(stored, earlier.take(i)).slots, from, other) matches Some(j)
            ==> !on_the_way(run(stored, earlier.take(i)).slots, start, key, j))) by {
            assert(earlier[i] == later[i]);
            assert(earlier.take(i) =~= later.take(i));
        }
        law_round_trip(state, start, key, value, earlier);
        let before = run(stored, earlier);
        lemma_apply_slots(before, op);
        match op {
            Op::Insert { start: from, key: other, value: v } => {
                law_lookup_survives_put(before.slots, start, key, from, other, v);
            },
            Op::Remove { start: from, key: other } => {
                law_lookup_survives_take(before.slots, start, key, from, other);
            },
        }
    }
}

} // verus!
