use vstd::prelude::*;

use crate::model::DualState;
use crate::model::distinct_keys;
use crate::model::st_get;
use crate::model::st_insert;
use crate::model::st_len;
use crate::model::st_remove;
use crate::model::st_wf;

verus! {

/// New-key read-after-write: inserting a key that is not yet present
/// makes the lock-free read path answer exactly the inserted value.
pub proof fn lemma_new_key_read_after_write<V>(s: DualState<V>, k: u64, v: V)
    requires
        st_wf(s),
        !s.auth.contains_key(k),
    ensures
        st_get(st_insert(s, k, v), k) == Some(v),
{
}

/// Every insert and remove keeps the engine's invariant: the two
/// stores hold the same keys.
pub proof fn lemma_transitions_preserve_wf<V>(s: DualState<V>, k: u64, v: V)
    requires
        st_wf(s),
    ensures
        st_wf(st_insert(s, k, v)),
        st_wf(st_remove(s, k)),
{
    assert(st_insert(s, k, v).shadow.dom() =~= st_insert(s, k, v).auth.dom());
    assert(st_remove(s, k).shadow.dom() =~= st_remove(s, k).auth.dom());
}

/// Overwrite staleness: overwriting a key that already holds `v1`
/// leaves the read path answering `v1`, not the new value, until the
/// key is removed and inserted again, after which the read path
/// answers the newest value.
pub proof fn lemma_overwrite_staleness<V>(s: DualState<V>, k: u64, v1: V, v2: V, v3: V)
    requires
        st_wf(s),
        st_get(s, k) == Some(v1),
    ensures
        st_get(st_insert(s, k, v2), k) == Some(v1),
        st_get(st_insert(st_remove(st_insert(s, k, v2), k), k, v3), k) == Some(v3),
{
}

/// Remove-then-absent: after a successful remove, the read path
/// answers empty for the key and the count drops by exactly one.
pub proof fn lemma_remove_then_absent<V>(s: DualState<V>, k: u64)
    requires
        st_wf(s),
        s.auth.contains_key(k),
    ensures
        st_get(st_remove(s, k), k) is None,
        st_len(st_remove(s, k)) == st_len(s) - 1,
{
    assert(st_remove(s, k).shadow.dom() =~= s.shadow.dom().remove(k));
}

/// Applies a sequence of inserts to a state, first pair first.
pub open spec fn st_insert_all<V>(s: DualState<V>, entries: Seq<(u64, V)>) -> DualState<V>
    decreases entries.len(),
{
    if entries.len() == 0 {
        s
    } else {
        st_insert_all(st_insert(s, entries[0].0, entries[0].1), entries.drop_first())
    }
}

/// Count consistency: a sequence of inserts of pairwise distinct
/// keys, none previously present, grows the reported count by
/// exactly the number of keys inserted.
pub proof fn lemma_count_consistency<V>(s: DualState<V>, entries: Seq<(u64, V)>)
    requires
        st_wf(s),
        distinct_keys(entries),
        forall|i: int| 0 <= i < entries.len() ==> !s.auth.contains_key((#[trigger] entries[i]).0),
    ensures
        st_wf(st_insert_all(s, entries)),
        st_len(st_insert_all(s, entries)) == st_len(s) + entries.len(),
    decreases entries.len(),
{
    if entries.len() > 0 {
        let k = entries[0].0;
        let v = entries[0].1;
        let s1 = st_insert(s, k, v);
        lemma_transitions_preserve_wf(s, k, v);
        assert(!s.shadow.contains_key(k));
        assert(st_len(s1) == st_len(s) + 1);
        let rest = entries.drop_first();
        assert forall|i: int, j: int| 0 <= i < j < rest.len() implies (#[trigger] rest[i]).0 != (
        #[trigger] rest[j]).0 by {
            assert(rest[i] == entries[i + 1] && rest[j] == entries[j + 1]);
        }
        assert forall|i: int| 0 <= i < rest.len() implies !s1.auth.contains_key(
            (#[trigger] rest[i]).0,
        ) by {
            assert(rest[i] == entries[i + 1]);
            assert(entries[i + 1].0 != entries[0].0);
        }
        lemma_count_consistency(s1, rest);
    }
}

} // verus!
