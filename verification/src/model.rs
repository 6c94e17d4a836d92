use vstd::prelude::*;

verus! {

/// The abstract state of the dual-store engine: the contents of the
/// authoritative store and of the shadow store, as mathematical maps.
pub struct DualState<V> {
    /// Contents of the authoritative (lock-guarded) store.
    pub auth: Map<u64, V>,
    /// Contents of the shadow (lock-free read) store.
    pub shadow: Map<u64, V>,
}

/// Well-formedness of an abstract state: the two stores always hold
/// exactly the same keys, and there are finitely many of them.
pub open spec fn st_wf<V>(s: DualState<V>) -> bool {
    &&& s.auth.dom().finite()
    &&& s.shadow.dom() == s.auth.dom()
}

/// Effect of `insert(k, v)` on the abstract state: the authoritative
/// store always takes the new value; the shadow store is populated
/// only when the key is new, and keeps its old value on an overwrite.
pub open spec fn st_insert<V>(s: DualState<V>, k: u64, v: V) -> DualState<V> {
    DualState {
        auth: s.auth.insert(k, v),
        shadow: if s.auth.contains_key(k) {
            s.shadow
        } else {
            s.shadow.insert(k, v)
        },
    }
}

/// Effect of `remove(k)` on the abstract state: the key leaves both
/// stores.
pub open spec fn st_remove<V>(s: DualState<V>, k: u64) -> DualState<V> {
    DualState { auth: s.auth.remove(k), shadow: s.shadow.remove(k) }
}

/// Effect of `clear` on the abstract state: both stores are emptied.
pub open spec fn st_clear<V>() -> DualState<V> {
    DualState { auth: Map::empty(), shadow: Map::empty() }
}

/// What the lock-free read path answers for `k`: the shadow store's
/// entry, which may be stale after an overwrite.
pub open spec fn st_get<V>(s: DualState<V>, k: u64) -> Option<V> {
    if s.shadow.contains_key(k) {
        Some(s.shadow[k])
    } else {
        None
    }
}

/// What `len` reports: the shadow store's cardinality.
pub open spec fn st_len<V>(s: DualState<V>) -> nat {
    s.shadow.dom().len()
}

/// The mapping denoted by the key/value pairs of `s` from index `i`
/// on, where an earlier pair wins over a later one with the same key.
pub open spec fn pairs_map_from<V>(s: Seq<(u64, V)>, i: int) -> Map<u64, V>
    decreases s.len() - i,
{
    if i < 0 || i >= s.len() {
        Map::empty()
    } else {
        pairs_map_from(s, i + 1).insert(s[i].0, s[i].1)
    }
}

/// The mapping denoted by a whole sequence of key/value pairs.
pub open spec fn pairs_map<V>(s: Seq<(u64, V)>) -> Map<u64, V> {
    pairs_map_from(s, 0)
}

/// No key occurs twice in the sequence of pairs.
pub open spec fn distinct_keys<V>(s: Seq<(u64, V)>) -> bool {
    forall|i: int, j: int| 0 <= i < j < s.len() ==> (#[trigger] s[i]).0 != (#[trigger] s[j]).0
}

/// A key is in the suffix mapping exactly when one of the suffix's
/// pairs carries it.
pub proof fn lemma_pairs_map_from_dom<V>(s: Seq<(u64, V)>, i: int)
    requires
        0 <= i,
    ensures
        forall|k: u64|
            pairs_map_from(s, i).dom().contains(k) <==> exists|j: int|
                i <= j < s.len() && (#[trigger] s[j]).0 == k,
    decreases s.len() - i,
{
    if i < s.len() {
        lemma_pairs_map_from_dom(s, i + 1);
        assert forall|k: u64| pairs_map_from(s, i).dom().contains(k) implies exists|j: int|
            i <= j < s.len() && (#[trigger] s[j]).0 == k by {
            if k == s[i].0 {
                assert(i <= i < s.len() && (s[i]).0 == k);
            } else {
                assert(pairs_map_from(s, i + 1).dom().contains(k));
                let j = choose|j: int| i + 1 <= j < s.len() && (#[trigger] s[j]).0 == k;
                assert(i <= j < s.len() && (s[j]).0 == k);
            }
        }
        assert forall|k: u64|
            (exists|j: int| i <= j < s.len() && (#[trigger] s[j]).0 == k) implies pairs_map_from(
            s,
            i,
        ).dom().contains(k) by {
            let j = choose|j: int| i <= j < s.len() && (#[trigger] s[j]).0 == k;
            if j != i {
                assert(i + 1 <= j < s.len() && (s[j]).0 == k);
                assert(pairs_map_from(s, i + 1).dom().contains(k));
            }
        }
    }
}

} // verus!
