//! The storage layer's laws, each proved over the views its operation
//! contracts speak in.

use vstd::prelude::*;

use crate::stable::is_ascending_entry_list;
use crate::stable::lookup;

verus! {

proof fn lemma_counter_runs_by_one(counters: Seq<u64>, ids: Seq<u64>, k: int)
    requires
        counters.len() == ids.len() + 1,
        counters[0] == 0,
        forall|i: int| 0 <= i < ids.len() ==> (#[trigger] counters[i]) < u64::MAX,
        forall|i: int| 0 <= i < ids.len() ==> (#[trigger] ids[i]) == counters[i] + 1,
        forall|i: int| 0 <= i < ids.len() ==> (#[trigger] counters[i + 1]) == ids[i],
        0 <= k < ids.len(),
    ensures
        counters[k] == k,
        ids[k] == k + 1,
    decreases k,
{
    if k > 0 {
        lemma_counter_runs_by_one(counters, ids, k - 1);
    }
}

/// A run of creates allocates strictly increasing, pairwise distinct
/// identifiers; from a counter initialized to 0 they are exactly
/// 1, 2, 3, ...  Each step is what `create_quiz` ensures: the stored
/// identifier is the old counter plus one, and the counter is left at
/// that identifier.
pub proof fn lemma_created_ids_strictly_increasing(counters: Seq<u64>, ids: Seq<u64>)
    requires
        counters.len() == ids.len() + 1,
        counters[0] == 0,
        forall|i: int| 0 <= i < ids.len() ==> (#[trigger] counters[i]) < u64::MAX,
        forall|i: int| 0 <= i < ids.len() ==> (#[trigger] ids[i]) == counters[i] + 1,
        forall|i: int| 0 <= i < ids.len() ==> (#[trigger] counters[i + 1]) == ids[i],
    ensures
        forall|i: int| 0 <= i < ids.len() ==> (#[trigger] ids[i]) == i + 1,
        forall|i: int, j: int| 0 <= i < j < ids.len() ==> ids[i] < ids[j],
{
    assert forall|i: int| 0 <= i < ids.len() implies (#[trigger] ids[i]) == i + 1 by {
        lemma_counter_runs_by_one(counters, ids, i);
    }
}

/// After `insert(k, v)`, a lookup of `k` yields exactly `v`.
pub proof fn lemma_insert_then_get(m: Map<u64, Seq<u8>>, k: u64, v: Seq<u8>)
    ensures
        lookup(m.insert(k, v), k) == Some(v),
{
}

/// After removing a present key, a lookup of it finds nothing, and
/// removing it again yields nothing and changes nothing.
pub proof fn lemma_remove_then_get(m: Map<u64, Seq<u8>>, k: u64)
    ensures
        lookup(m.remove(k), k) is None,
        lookup(m.remove(k).remove(k), k) is None,
        m.remove(k).remove(k) == m.remove(k),
{
    assert(m.remove(k).remove(k) =~= m.remove(k));
}

/// A second insert under one key leaves exactly one entry for it, with
/// the second value: both inserts together equal the second alone.
pub proof fn lemma_insert_overwrites(m: Map<u64, Seq<u8>>, k: u64, v1: Seq<u8>, v2: Seq<u8>)
    ensures
        m.insert(k, v1).insert(k, v2) == m.insert(k, v2),
        lookup(m.insert(k, v1).insert(k, v2), k) == Some(v2),
{
    assert(m.insert(k, v1).insert(k, v2) =~= m.insert(k, v2));
}

/// An enumeration of the map never carries one key twice.
pub proof fn lemma_enumeration_keys_unique(ps: Seq<(u64, Seq<u8>)>, m: Map<u64, Seq<u8>>)
    requires
        is_ascending_entry_list(ps, m),
    ensures
        forall|i: int, j: int|
            0 <= i < j < ps.len() ==> (#[trigger] ps[i]).0 != (#[trigger] ps[j]).0,
{
}

/// Enumerating an empty map yields an empty list, not a fault.
pub proof fn lemma_enumerate_empty(ps: Seq<(u64, Seq<u8>)>, m: Map<u64, Seq<u8>>)
    requires
        is_ascending_entry_list(ps, m),
        m.dom() == Set::<u64>::empty(),
    ensures
        ps.len() == 0,
{
    if ps.len() > 0 {
        assert(m.contains_key(ps[0].0));
        assert(m.dom().contains(ps[0].0));
    }
}

} // verus!
