//! Linear probing over a fixed sequence of slots, as mathematics.
//!
//! A slot is `None` when empty and `Some((key, value))` when occupied. A probe
//! for a key starts at the key's home slot and walks the slots in increasing
//! order, wrapping at the end, for at most as many steps as there are slots.
//! It walks past slots that hold other keys and ends at the first slot that is
//! empty or holds the key itself.
//!
//! Removal empties a slot without leaving a marker behind. A later probe
//! therefore ends at that slot even when the key it looks for lies further
//! along; the definitions here describe exactly that behaviour.

use vstd::prelude::*;

verus! {

/// The slot that a probe from `start` visits at its `step`-th step (counting
/// from zero) in a table of `cap` slots.
pub open spec fn probe_slot(cap: int, start: int, step: int) -> int {
    (start + step) % cap
}

/// A probe for `key` walks past `slot`: the slot holds some other key.
pub open spec fn blocks<K>(slot: Option<(K, i32)>, key: K) -> bool {
    match slot {
        Some((stored, _)) => stored != key,
        None => false,
    }
}

/// The probe for `key` from `start` walks past every one of its first `n` slots.
pub open spec fn walks_past<K>(slots: Seq<Option<(K, i32)>>, start: int, key: K, n: int) -> bool {
    forall|i: int|
        0 <= i < n ==> blocks(slots[#[trigger] probe_slot(slots.len() as int, start, i)], key)
}

/// The probe for `key` from `start` ends at its `n`-th step.
pub open spec fn stops_at<K>(slots: Seq<Option<(K, i32)>>, start: int, key: K, n: int) -> bool {
    &&& 0 <= n < slots.len()
    &&& walks_past(slots, start, key, n)
    &&& !blocks(slots[probe_slot(slots.len() as int, start, n)], key)
}

/// The slot at which the probe for `key` from `start` ends, or `None` when
/// every slot it may visit holds another key.
pub open spec fn probe_end<K>(slots: Seq<Option<(K, i32)>>, start: int, key: K) -> Option<int> {
    if exists|n: int| stops_at(slots, start, key, n) {
        Some(probe_slot(slots.len() as int, start, choose|n: int| stops_at(slots, start, key, n)))
    } else {
        None
    }
}

/// What a lookup of `key` finds: the value in the slot where the probe ends.
pub open spec fn lookup<K>(slots: Seq<Option<(K, i32)>>, start: int, key: K) -> Option<i32> {
    match probe_end(slots, start, key) {
        Some(j) => match slots[j] {
            Some((_, value)) => Some(value),
            None => None,
        },
        None => None,
    }
}

/// The slots after storing `key` with `value`: the slot where the probe ends
/// receives the pair; if the probe finds no such slot nothing changes.
pub open spec fn put<K>(slots: Seq<Option<(K, i32)>>, start: int, key: K, value: i32) -> Seq<
    Option<(K, i32)>,
> {
    match probe_end(slots, start, key) {
        Some(j) => slots.update(j, Some((key, value))),
        None => slots,
    }
}

/// The slots after deleting `key`: the slot where the probe ends is emptied.
pub open spec fn take<K>(slots: Seq<Option<(K, i32)>>, start: int, key: K) -> Seq<
    Option<(K, i32)>,
> {
    match probe_end(slots, start, key) {
        Some(j) => slots.update(j, None),
        None => slots,
    }
}

/// Some slot holds `key`.
pub open spec fn stores<K>(slots: Seq<Option<(K, i32)>>, key: K) -> bool {
    exists|j: int| 0 <= j < slots.len() && holds(#[trigger] slots[j], key)
}

/// The slot is occupied by `key`.
pub open spec fn holds<K>(slot: Option<(K, i32)>, key: K) -> bool {
    match slot {
        Some((stored, _)) => stored == key,
        None => false,
    }
}

/// The indices of the occupied slots.
pub open spec fn occupied<K>(slots: Seq<Option<(K, i32)>>) -> Set<int> {
    Set::new(|i: int| 0 <= i < slots.len() && slots[i] is Some)
}

/// How many slots are occupied.
pub open spec fn occupancy<K>(slots: Seq<Option<(K, i32)>>) -> nat {
    occupied(slots).len()
}

/// A table of `cap` empty slots.
pub open spec fn vacant<K>(cap: nat) -> Seq<Option<(K, i32)>> {
    Seq::new(cap, |i: int| None)
}

/// Every probed slot lies in the table, and each step moves one slot on,
/// wrapping at the end.
pub proof fn lemma_probe_slot(cap: int, start: int, step: int)
    requires
        0 < cap,
        0 <= start < cap,
        0 <= step,
    ensures
        0 <= probe_slot(cap, start, step) < cap,
        probe_slot(cap, start, 0) == start,
        probe_slot(cap, start, step + 1) == (probe_slot(cap, start, step) + 1) % cap,
        probe_slot(cap, start, step + 1) == if probe_slot(cap, start, step) + 1 == cap {
            0
        } else {
            probe_slot(cap, start, step) + 1
        },
{
    vstd::arithmetic::div_mod::lemma_mod_bound(start + step, cap);
    vstd::arithmetic::div_mod::lemma_small_mod(start as nat, cap as nat);
    vstd::arithmetic::div_mod::lemma_add_mod_noop(start + step, 1, cap);
    let here = probe_slot(cap, start, step);
    if here + 1 == cap {
        vstd::arithmetic::div_mod::lemma_mod_self_0(cap);
    } else {
        vstd::arithmetic::div_mod::lemma_small_mod((here + 1) as nat, cap as nat);
    }
    if cap == 1 {
        vstd::arithmetic::div_mod::lemma_mod_bound(1, cap);
    } else {
        vstd::arithmetic::div_mod::lemma_small_mod(1, cap as nat);
    }
}

/// Within one round the probe visits every slot: slot `j` at the step this
/// lemma returns.
pub proof fn lemma_probe_reaches(cap: int, start: int, j: int) -> (step: int)
    requires
        0 <= start < cap,
        0 <= j < cap,
    ensures
        0 <= step < cap,
        probe_slot(cap, start, step) == j,
{
    if j >= start {
        vstd::arithmetic::div_mod::lemma_small_mod(j as nat, cap as nat);
        j - start
    } else {
        vstd::arithmetic::div_mod::lemma_mod_add_multiples_vanish(j, cap);
        vstd::arithmetic::div_mod::lemma_small_mod(j as nat, cap as nat);
        j - start + cap
    }
}

/// A probe ends at one step only.
pub proof fn lemma_stop_unique<K>(
    slots: Seq<Option<(K, i32)>>,
    start: int,
    key: K,
    n: int,
    m: int,
)
    requires
        stops_at(slots, start, key, n),
        stops_at(slots, start, key, m),
    ensures
        n == m,
{
    let cap = slots.len() as int;
    if n < m {
        assert(blocks(slots[probe_slot(cap, start, n)], key));
    } else if m < n {
        assert(blocks(slots[probe_slot(cap, start, m)], key));
    }
}

/// If the probe ends at step `n`, its end is the slot visited at that step.
pub proof fn lemma_probe_end_at<K>(slots: Seq<Option<(K, i32)>>, start: int, key: K, n: int)
    requires
        stops_at(slots, start, key, n),
    ensures
        probe_end(slots, start, key) == Some(probe_slot(slots.len() as int, start, n)),
{
    let m = choose|m: int| stops_at(slots, start, key, m);
    lemma_stop_unique(slots, start, key, n, m);
}

/// If the probe walks past a whole round of slots, it has no end.
pub proof fn lemma_probe_end_none<K>(slots: Seq<Option<(K, i32)>>, start: int, key: K)
    requires
        walks_past(slots, start, key, slots.len() as int),
    ensures
        probe_end(slots, start, key) is None,
{
    let cap = slots.len() as int;
    assert forall|n: int| !stops_at(slots, start, key, n) by {
        if 0 <= n < cap {
            assert(blocks(slots[probe_slot(cap, start, n)], key));
        }
    }
}

/// Where a probe ends: inside the table, at a slot that is empty or holds the
/// key, after walking only past slots that hold other keys.
pub proof fn lemma_probe_end_some<K>(slots: Seq<Option<(K, i32)>>, start: int, key: K) -> (n: int)
    requires
        0 <= start < slots.len(),
        probe_end(slots, start, key) is Some,
    ensures
        stops_at(slots, start, key, n),
        probe_end(slots, start, key) == Some(probe_slot(slots.len() as int, start, n)),
        0 <= probe_end(slots, start, key)->0 < slots.len(),
        !blocks(slots[probe_end(slots, start, key)->0], key),
{
    let n = choose|n: int| stops_at(slots, start, key, n);
    lemma_probe_slot(slots.len() as int, start, n);
    n
}

/// A probe has no end exactly when every slot of the table holds another key.
pub proof fn lemma_no_end_iff_all_block<K>(slots: Seq<Option<(K, i32)>>, start: int, key: K)
    requires
        0 <= start < slots.len(),
    ensures
        probe_end(slots, start, key) is None <==> forall|j: int|
            0 <= j < slots.len() ==> blocks(#[trigger] slots[j], key),
{
    let cap = slots.len() as int;
    if forall|j: int| 0 <= j < slots.len() ==> blocks(#[trigger] slots[j], key) {
        assert forall|i: int| 0 <= i < cap implies blocks(
            slots[#[trigger] probe_slot(cap, start, i)],
            key,
        ) by {
            lemma_probe_slot(cap, start, i);
        }
        lemma_probe_end_none(slots, start, key);
    } else {
        let j = choose|j: int| 0 <= j < slots.len() && !blocks(#[trigger] slots[j], key);
        let step = lemma_probe_reaches(cap, start, j);
        lemma_first_stop(slots, start, key, step);
    }
}

/// If some step within the first round lands on a slot that does not block,
/// the probe has an end at that step or earlier.
pub proof fn lemma_first_stop<K>(slots: Seq<Option<(K, i32)>>, start: int, key: K, n: int)
    requires
        0 <= n < slots.len(),
        !blocks(slots[probe_slot(slots.len() as int, start, n)], key),
    ensures
        exists|m: int| 0 <= m <= n && stops_at(slots, start, key, m),
        probe_end(slots, start, key) is Some,
    decreases n,
{
    let cap = slots.len() as int;
    if walks_past(slots, start, key, n) {
        assert(stops_at(slots, start, key, n));
    } else {
        let i = choose|i: int|
            0 <= i < n && !blocks(slots[#[trigger] probe_slot(cap, start, i)], key);
        lemma_first_stop(slots, start, key, i);
    }
}

} // verus!
