//! What holds of every table that resolves collisions by linear probing.
//!
//! The statements are about the slot sequences of [`crate::probe`], so they
//! hold of every table whose operations are specified through `put`, `take`
//! and `lookup`.

use crate::probe::{
    blocks, holds, lemma_first_stop, lemma_no_end_iff_all_block, lemma_probe_end_at,
    lemma_probe_end_some, lemma_probe_slot, lemma_stop_unique, lookup, occupancy, occupied,
    probe_end, probe_slot, put, stops_at, stores, take, vacant,
};
use vstd::prelude::*;
use vstd::set_lib::{lemma_int_range, lemma_len_subset, set_int_range};

verus! {

/// A probe that walks past a slot does so whatever else is stored, as long as
/// the slots it walks past keep holding other keys.
proof fn lemma_stop_kept<K>(
    before: Seq<Option<(K, i32)>>,
    after: Seq<Option<(K, i32)>>,
    start: int,
    key: K,
    n: int,
)
    requires
        before.len() == after.len(),
        0 <= start < before.len(),
        stops_at(before, start, key, n),
        forall|j: int| 0 <= j < before.len() && blocks(before[j], key) ==> blocks(after[j], key),
        !blocks(after[probe_slot(before.len() as int, start, n)], key),
    ensures
        stops_at(after, start, key, n),
        probe_end(after, start, key) == probe_end(before, start, key),
{
    let cap = before.len() as int;
    assert forall|i: int| 0 <= i < n implies blocks(
        after[#[trigger] probe_slot(cap, start, i)],
        key,
    ) by {
        lemma_probe_slot(cap, start, i);
    }
    lemma_probe_end_at(after, start, key, n);
    lemma_probe_end_at(before, start, key, n);
}

/// The occupied slots of a table are finitely many, at most one per slot.
pub proof fn lemma_occupancy_bound<K>(slots: Seq<Option<(K, i32)>>)
    ensures
        occupied(slots).finite(),
        occupancy(slots) <= slots.len(),
        occupancy(slots) == slots.len() <==> forall|j: int|
            0 <= j < slots.len() ==> slots[j] is Some,
        occupancy(slots) == 0 <==> forall|j: int| 0 <= j < slots.len() ==> slots[j] is None,
{
    let all = set_int_range(0, slots.len() as int);
    lemma_int_range(0, slots.len() as int);
    lemma_len_subset(occupied(slots), all);
    if forall|j: int| 0 <= j < slots.len() ==> slots[j] is Some {
        assert(occupied(slots) =~= all);
    }
    if occupancy(slots) == slots.len() {
        if exists|j: int| 0 <= j < slots.len() && slots[j] is None {
            let j = choose|j: int| 0 <= j < slots.len() && slots[j] is None;
            lemma_len_subset(occupied(slots), all.remove(j));
        }
    }
    if forall|j: int| 0 <= j < slots.len() ==> slots[j] is None {
        assert(occupied(slots) =~= Set::empty());
    }
    if occupancy(slots) == 0 {
        if exists|j: int| 0 <= j < slots.len() && slots[j] is Some {
            let j = choose|j: int| 0 <= j < slots.len() && slots[j] is Some;
            assert(occupied(slots).contains(j));
        }
    }
}

/// How the count of occupied slots moves when one slot is written.
pub proof fn lemma_occupancy_update<K>(
    slots: Seq<Option<(K, i32)>>,
    j: int,
    slot: Option<(K, i32)>,
)
    requires
        0 <= j < slots.len(),
    ensures
        occupancy(slots.update(j, slot)) == occupancy(slots) + (if slot is Some {
            1int
        } else {
            0int
        }) - (if slots[j] is Some {
            1int
        } else {
            0int
        }),
{
    lemma_occupancy_bound(slots);
    let after = slots.update(j, slot);
    if slot is Some {
        assert(occupied(after) =~= occupied(slots).insert(j));
    } else {
        assert(occupied(after) =~= occupied(slots).remove(j));
    }
}

/// A stored key is found again: after a successful insertion of `key` with
/// `value`, a lookup of `key` from the same start returns `value`.
pub proof fn law_put_then_lookup<K>(slots: Seq<Option<(K, i32)>>, start: int, key: K, value: i32)
    requires
        0 <= start < slots.len(),
        probe_end(slots, start, key) is Some,
    ensures
        lookup(put(slots, start, key, value), start, key) == Some(value),
        probe_end(put(slots, start, key, value), start, key) == probe_end(slots, start, key),
{
    let n = lemma_probe_end_some(slots, start, key);
    let after = put(slots, start, key, value);
    lemma_stop_kept(slots, after, start, key, n);
}

/// Inserting another key does not disturb a key that can be found: its lookup
/// returns the same value as before.
pub proof fn law_lookup_survives_put<K>(
    slots: Seq<Option<(K, i32)>>,
    start: int,
    key: K,
    other_start: int,
    other: K,
    value: i32,
)
    requires
        0 <= start < slots.len(),
        0 <= other_start < slots.len(),
        other != key,
        lookup(slots, start, key) is Some,
    ensures
        lookup(put(slots, other_start, other, value), start, key) == lookup(slots, start, key),
        probe_end(put(slots, other_start, other, value), start, key) == probe_end(
            slots,
            start,
            key,
        ),
{
    let n = lemma_probe_end_some(slots, start, key);
    let after = put(slots, other_start, other, value);
    if probe_end(slots, other_start, other) is Some {
        let m = lemma_probe_end_some(slots, other_start, other);
    }
    lemma_stop_kept(slots, after, start, key, n);
}

/// The probe for `key` is still under way at step `i`: it ends at a later step.
pub open spec fn under_way<K>(slots: Seq<Option<(K, i32)>>, start: int, key: K, i: int) -> bool {
    exists|n: int| i < n && stops_at(slots, start, key, n)
}

/// The slot at index `j` lies on the way of the probe for `key`: the probe
/// walks past it before it ends.
pub open spec fn on_the_way<K>(slots: Seq<Option<(K, i32)>>, start: int, key: K, j: int) -> bool {
    exists|i: int|
        0 <= i && under_way(slots, start, key, i) && #[trigger] probe_slot(
            slots.len() as int,
            start,
            i,
        ) == j
}

/// Removing another key does not disturb a key that can be found, unless the
/// removal empties a slot on the way to it.
pub proof fn law_lookup_survives_take<K>(
    slots: Seq<Option<(K, i32)>>,
    start: int,
    key: K,
    other_start: int,
    other: K,
)
    requires
        0 <= start < slots.len(),
        0 <= other_start < slots.len(),
        other != key,
        lookup(slots, start, key) is Some,
        probe_end(slots, other_start, other) matches Some(j) ==> !on_the_way(slots, start, key, j),
    ensures
        lookup(take(slots, other_start, other), start, key) == lookup(slots, start, key),
        probe_end(take(slots, other_start, other), start, key) == probe_end(slots, start, key),
{
    let cap = slots.len() as int;
    let n = lemma_probe_end_some(slots, start, key);
    let after = take(slots, other_start, other);
    if probe_end(slots, other_start, other) is Some {
        let m = lemma_probe_end_some(slots, other_start, other);
        let j = probe_end(slots, other_start, other)->0;
        assert forall|i: int| 0 <= i < n implies blocks(
            after[#[trigger] probe_slot(cap, start, i)],
            key,
        ) by {
            lemma_probe_slot(cap, start, i);
            assert(under_way(slots, start, key, i));
        }
        lemma_probe_end_at(after, start, key, n);
        lemma_probe_end_at(slots, start, key, n);
    }
}

/// The gap that removal without markers leaves: when a removal empties a slot
/// on the way to a key, that key is no longer found although it is stored.
pub proof fn law_take_on_the_way_hides<K>(
    slots: Seq<Option<(K, i32)>>,
    start: int,
    key: K,
    other_start: int,
    other: K,
)
    requires
        0 <= start < slots.len(),
        0 <= other_start < slots.len(),
        lookup(slots, start, key) is Some,
        probe_end(slots, other_start, other) matches Some(j) && on_the_way(slots, start, key, j),
    ensures
        lookup(take(slots, other_start, other), start, key) is None,
        stores(take(slots, other_start, other), key),
{
    let cap = slots.len() as int;
    let n = lemma_probe_end_some(slots, start, key);
    let m = lemma_probe_end_some(slots, other_start, other);
    let j = probe_end(slots, other_start, other)->0;
    let after = take(slots, other_start, other);
    let i = choose|i: int|
        0 <= i && under_way(slots, start, key, i) && #[trigger] probe_slot(cap, start, i) == j;
    let n2 = choose|n2: int| i < n2 && stops_at(slots, start, key, n2);
    lemma_stop_unique(slots, start, key, n, n2);
    let end = probe_slot(cap, start, n);
    lemma_probe_slot(cap, start, n);
    assert(blocks(slots[j], key));
    assert(end != j);
    assert(holds(after[end], key));
    // The probe now ends at or before the emptied slot, on an empty slot.
    lemma_first_stop(after, start, key, i);
    let stop = choose|s: int| 0 <= s <= i && stops_at(after, start, key, s);
    lemma_probe_end_at(after, start, key, stop);
    lemma_probe_slot(cap, start, stop);
    let at = probe_slot(cap, start, stop);
    if at != j {
        assert(blocks(slots[probe_slot(cap, start, stop)], key));
    }
}

/// Inserting a key twice in a row: the second insertion succeeds, the lookup
/// returns the second value, and the table is the one that a single
/// insertion of the second value gives, so no further slot is taken.
pub proof fn law_put_twice<K>(
    slots: Seq<Option<(K, i32)>>,
    start: int,
    key: K,
    first: i32,
    second: i32,
)
    requires
        0 <= start < slots.len(),
        probe_end(slots, start, key) is Some,
    ensures
        probe_end(put(slots, start, key, first), start, key) is Some,
        lookup(put(put(slots, start, key, first), start, key, second), start, key) == Some(second),
        put(put(slots, start, key, first), start, key, second) == put(slots, start, key, second),
        occupancy(put(put(slots, start, key, first), start, key, second)) == occupancy(
            put(slots, start, key, first),
        ),
{
    let once = put(slots, start, key, first);
    let n = lemma_probe_end_some(slots, start, key);
    law_put_then_lookup(slots, start, key, first);
    law_put_then_lookup(once, start, key, second);
    let j = probe_end(slots, start, key)->0;
    assert(put(once, start, key, second) =~= put(slots, start, key, second));
    lemma_occupancy_update(once, j, Some((key, second)));
}

/// Replacing the value of a key that is found takes no further slot.
pub proof fn law_update_keeps_occupancy<K>(
    slots: Seq<Option<(K, i32)>>,
    start: int,
    key: K,
    value: i32,
)
    requires
        0 <= start < slots.len(),
        lookup(slots, start, key) is Some,
    ensures
        occupancy(put(slots, start, key, value)) == occupancy(slots),
{
    let n = lemma_probe_end_some(slots, start, key);
    lemma_occupancy_update(slots, probe_end(slots, start, key)->0, Some((key, value)));
}

/// A key that has been inserted and then removed is not found.
pub proof fn law_put_take_lookup<K>(slots: Seq<Option<(K, i32)>>, start: int, key: K, value: i32)
    requires
        0 <= start < slots.len(),
        probe_end(slots, start, key) is Some,
    ensures
        lookup(take(put(slots, start, key, value), start, key), start, key) is None,
{
    let n = lemma_probe_end_some(slots, start, key);
    let stored = put(slots, start, key, value);
    law_put_then_lookup(slots, start, key, value);
    let gone = take(stored, start, key);
    lemma_stop_kept(stored, gone, start, key, n);
}

/// Removing a key that is not found changes nothing, and a key that no slot
/// holds is not found.
pub proof fn law_take_absent<K>(slots: Seq<Option<(K, i32)>>, start: int, key: K)
    requires
        0 <= start < slots.len(),
    ensures
        lookup(slots, start, key) is None ==> take(slots, start, key) == slots,
        !stores(slots, key) ==> lookup(slots, start, key) is None,
{
    if probe_end(slots, start, key) is Some {
        let n = lemma_probe_end_some(slots, start, key);
        let j = probe_end(slots, start, key)->0;
        if lookup(slots, start, key) is None {
            assert(take(slots, start, key) =~= slots);
        }
        if !stores(slots, key) {
            assert(!holds(slots[j], key));
        }
    }
}

/// When insertion fails: exactly when every slot holds some other key. So it
/// succeeds while a slot is empty, and it succeeds for a key that some slot
/// holds even when no slot is empty.
pub proof fn law_full<K>(slots: Seq<Option<(K, i32)>>, start: int, key: K)
    requires
        0 <= start < slots.len(),
    ensures
        probe_end(slots, start, key) is None <==> forall|j: int|
            0 <= j < slots.len() ==> blocks(#[trigger] slots[j], key),
        occupancy(slots) < slots.len() ==> probe_end(slots, start, key) is Some,
        stores(slots, key) ==> probe_end(slots, start, key) is Some,
        occupancy(slots) == slots.len() && !stores(slots, key) ==> probe_end(slots, start, key)
            is None,
{
    lemma_no_end_iff_all_block(slots, start, key);
    lemma_occupancy_bound(slots);
    if occupancy(slots) < slots.len() {
        let j = choose|j: int| 0 <= j < slots.len() && !(slots[j] is Some);
        assert(!blocks(slots[j], key));
    }
    if stores(slots, key) {
        let j = choose|j: int| 0 <= j < slots.len() && holds(#[trigger] slots[j], key);
        assert(!blocks(slots[j], key));
    }
    if occupancy(slots) == slots.len() && !stores(slots, key) {
        assert forall|j: int| 0 <= j < slots.len() implies blocks(#[trigger] slots[j], key) by {
            assert(slots[j] is Some);
            assert(!holds(slots[j], key));
        }
    }
}

/// Inserting a key that no slot holds, while a slot is empty, takes exactly
/// one more slot and stores no other key.
pub proof fn law_put_new<K>(slots: Seq<Option<(K, i32)>>, start: int, key: K, value: i32)
    requires
        0 <= start < slots.len(),
        !stores(slots, key),
        occupancy(slots) < slots.len(),
    ensures
        probe_end(slots, start, key) is Some,
        occupancy(put(slots, start, key, value)) == occupancy(slots) + 1,
        forall|other: K|
            stores(put(slots, start, key, value), other) ==> other == key || stores(slots, other),
{
    law_full(slots, start, key);
    let n = lemma_probe_end_some(slots, start, key);
    let j = probe_end(slots, start, key)->0;
    assert(!holds(slots[j], key));
    lemma_occupancy_update(slots, j, Some((key, value)));
    let after = put(slots, start, key, value);
    assert forall|other: K| stores(after, other) implies other == key || stores(slots, other) by {
        let i = choose|i: int| 0 <= i < after.len() && holds(#[trigger] after[i], other);
        if i != j {
            assert(holds(slots[i], other));
        }
    }
}

/// One insertion of a run: the slot to start from, the key and the value.
pub type Insertion<K> = (int, K, i32);

/// The slots after a run of insertions, made one after the other.
pub open spec fn put_all<K>(slots: Seq<Option<(K, i32)>>, run: Seq<Insertion<K>>) -> Seq<
    Option<(K, i32)>,
>
    decreases run.len(),
{
    if run.len() == 0 {
        slots
    } else {
        let (start, key, value) = run.last();
        put(put_all(slots, run.drop_last()), start, key, value)
    }
}

/// The keys of a run of insertions differ from one another.
pub open spec fn distinct_keys<K>(run: Seq<Insertion<K>>) -> bool {
    forall|i: int, j: int| 0 <= i < j < run.len() ==> run[i].1 != run[j].1
}

/// Every insertion of the run starts from a slot of a table of `cap` slots.
pub open spec fn starts_within<K>(run: Seq<Insertion<K>>, cap: nat) -> bool {
    forall|i: int| 0 <= i < run.len() ==> 0 <= (#[trigger] run[i]).0 < cap
}

/// Filling an empty table: a run of insertions with distinct keys, no longer
/// than the table has slots, succeeds at every step and takes one slot per
/// key. Once as many keys as slots are in, a further key is turned down.
pub proof fn law_fill<K>(cap: nat, run: Seq<Insertion<K>>)
    requires
        run.len() <= cap,
        distinct_keys(run),
        starts_within(run, cap),
    ensures
        put_all(vacant::<K>(cap), run).len() == cap,
        occupancy(put_all(vacant::<K>(cap), run)) == run.len(),
        forall|i: int|
            0 <= i < run.len() ==> probe_end(
                put_all(vacant::<K>(cap), #[trigger] run.take(i)),
                run[i].0,
                run[i].1,
            ) is Some,
        forall|key: K|
            stores(put_all(vacant::<K>(cap), run), key) ==> exists|i: int|
                0 <= i < run.len() && (#[trigger] run[i]).1 == key,
        forall|start: int, key: K|
            run.len() == cap && 0 <= start < cap && (forall|i: int|
                0 <= i < run.len() ==> (#[trigger] run[i]).1 != key) ==> probe_end(
                put_all(vacant::<K>(cap), run),
                start,
                key,
            ) is None,
    decreases run.len(),
{
    let empty = vacant::<K>(cap);
    let filled = put_all(empty, run);
    if run.len() == 0 {
        lemma_occupancy_bound(empty);
    } else {
        let head = run.drop_last();
        let (start, key, value) = run.last();
        let before = put_all(empty, head);
        law_fill(cap, head);
        assert(run[run.len() - 1] == run.last());
        assert(!stores(before, key)) by {
            if stores(before, key) {
                let i = choose|i: int| 0 <= i < head.len() && (#[trigger] head[i]).1 == key;
                assert(run[i].1 == key);
            }
        }
        law_put_new(before, start, key, value);
        assert forall|i: int| 0 <= i < run.len() implies probe_end(
            put_all(empty, #[trigger] run.take(i)),
            run[i].0,
            run[i].1,
        ) is Some by {
            if i < head.len() {
                assert(run.take(i) =~= head.take(i));
                assert(run[i] == head[i]);
            } else {
                assert(run.take(i) =~= head);
            }
        }
        assert forall|k: K| stores(filled, k) implies exists|i: int|
            0 <= i < run.len() && (#[trigger] run[i]).1 == k by {
            if k == key {
                assert(run[run.len() - 1].1 == k);
            } else {
                assert(stores(before, k));
                let i = choose|i: int| 0 <= i < head.len() && (#[trigger] head[i]).1 == k;
                assert(run[i].1 == k);
            }
        }
    }
    assert forall|start: int, key: K|
        run.len() == cap && 0 <= start < cap && (forall|i: int|
            0 <= i < run.len() ==> (#[trigger] run[i]).1 != key) implies probe_end(
        filled,
        start,
        key,
    ) is None by {
        if stores(filled, key) {
            let i = choose|i: int| 0 <= i < run.len() && (#[trigger] run[i]).1 == key;
        }
        law_full(filled, start, key);
    }
}

} // verus!
