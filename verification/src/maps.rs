use vstd::prelude::*;

verus! {

/// Mapping a function over a map's values leaves its domain as it was.
pub broadcast proof fn lemma_map_values_dom<K, V, W>(m: Map<K, V>, f: spec_fn(V) -> W)
    ensures
        #[trigger] m.map_values(f).dom() == m.dom(),
{
    assert(m.map_values(f).dom() =~= m.dom());
}

/// Mapping a function over a map's values commutes with `insert`.
pub broadcast proof fn lemma_map_values_insert<K, V, W>(
    m: Map<K, V>,
    f: spec_fn(V) -> W,
    k: K,
    v: V,
)
    ensures
        #[trigger] m.insert(k, v).map_values(f) == m.map_values(f).insert(k, f(v)),
{
    assert(m.insert(k, v).map_values(f) =~= m.map_values(f).insert(k, f(v)));
}

/// Mapping a function over a map's values commutes with `remove`.
pub broadcast proof fn lemma_map_values_remove<K, V, W>(m: Map<K, V>, f: spec_fn(V) -> W, k: K)
    ensures
        #[trigger] m.remove(k).map_values(f) == m.map_values(f).remove(k),
{
    assert(m.remove(k).map_values(f) =~= m.map_values(f).remove(k));
}

/// Inserting a key that a map already holds leaves its domain as it was.
pub broadcast proof fn lemma_map_insert_contained_dom<K, V>(m: Map<K, V>, k: K, v: V)
    requires
        m.dom().contains(k),
    ensures
        #[trigger] m.insert(k, v).dom() == m.dom(),
{
    assert(m.insert(k, v).dom() =~= m.dom());
}

/// Removing a key that a map does not hold leaves the map as it was.
pub broadcast proof fn lemma_map_remove_absent<K, V>(m: Map<K, V>, k: K)
    requires
        !m.dom().contains(k),
    ensures
        #[trigger] m.remove(k) == m,
{
    assert(m.remove(k) =~= m);
}

} // verus!
