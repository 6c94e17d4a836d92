use vstd::prelude::*;

use std::collections::HashMap;
use std::sync::Arc;

use crate::model::DualState;
use crate::model::distinct_keys;
use crate::model::lemma_pairs_map_from_dom;
use crate::model::pairs_map;
use crate::model::pairs_map_from;
use crate::model::st_clear;
use crate::model::st_get;
use crate::model::st_insert;
use crate::model::st_len;
use crate::model::st_remove;
use crate::model::st_wf;
use vstd::std_specs::iter::IteratorSpec;

verus! {

broadcast use
    vstd::std_specs::hash::group_hash_axioms,
    crate::maps::lemma_map_values_dom,
    crate::maps::lemma_map_values_insert,
    crate::maps::lemma_map_values_remove,
    crate::maps::lemma_map_insert_contained_dom,
    crate::maps::lemma_map_remove_absent;

/// The dual-store map engine: an authoritative store of owned values
/// (`dirty`) beside a shadow store of non-owning, reference-counted
/// aliases (`read`) that answers lookups without touching the
/// authoritative side.
///
/// An insert of a new key publishes the value to both stores; an
/// overwrite updates only the authoritative store, so the shadow
/// store may serve a stale value until the key is removed and
/// inserted again.
pub struct SyncMapImpl<V> {
    read: HashMap<u64, Arc<V>>,
    dirty: HashMap<u64, Arc<V>>,
}

pub type SyncHashMap<V> = SyncMapImpl<V>;

/// Relies on Arc::clone: the returned handle refers to the same
/// underlying value as the argument; no value is copied and no
/// release logic will run for it while another handle is live.
#[verifier::external_body]
fn arc_share<V>(a: &Arc<V>) -> (r: Arc<V>)
    ensures
        r == *a,
{
    Arc::clone(a)
}

/// Relies on HashMap::get_mut: it hands out the slot stored under the
/// key, and a write through that slot is the only way the map changes.
#[verifier::external_body]
fn map_slot_mut<'a, V>(m: &'a mut HashMap<u64, Arc<V>>, k: &u64) -> (r: Option<&'a mut Arc<V>>)
    ensures
        match r {
            Some(slot) => old(m)@.contains_key(*k) && *slot == old(m)@[*k] && final(m)@ == old(
                m,
            )@.insert(*k, *final(slot)),
            None => !old(m)@.contains_key(*k) && final(m)@ == old(m)@,
        },
{
    m.get_mut(k)
}

/// Relies on HashMap::shrink_to_fit: it only releases spare backing
/// capacity and leaves the contents of the map unchanged.
#[verifier::external_body]
fn map_shrink<V>(m: &mut HashMap<u64, Arc<V>>)
    ensures
        final(m)@ == old(m)@,
{
    m.shrink_to_fit()
}

impl<V> SyncMapImpl<V> {
    /// The shadow store's contents: what the lock-free read path sees.
    pub closed spec fn shadow_map(self) -> Map<u64, V> {
        self.read@.map_values(|a: Arc<V>| *a)
    }

    /// The authoritative store's contents.
    pub closed spec fn dirty_map(self) -> Map<u64, V> {
        self.dirty@.map_values(|a: Arc<V>| *a)
    }

    /// The engine's abstract state: both stores as mathematical maps.
    pub open spec fn state(self) -> DualState<V> {
        DualState { auth: self.dirty_map(), shadow: self.shadow_map() }
    }

    /// Invariant: the two stores hold exactly the same key set.
    pub open spec fn well_formed(self) -> bool {
        st_wf(self.state())
    }

    pub fn new() -> (m: Self)
        ensures
            m.well_formed(),
            m.state() == st_clear::<V>(),
    {
        let m = SyncMapImpl { read: HashMap::new(), dirty: HashMap::new() };
        proof {
            assert(m.shadow_map() =~= Map::<u64, V>::empty());
            assert(m.dirty_map() =~= Map::<u64, V>::empty());
        }
        m
    }

    /// Pre-sizes both stores; the logical contents start empty either way.
    pub fn with_capacity(capacity: usize) -> (m: Self)
        ensures
            m.well_formed(),
            m.state() == st_clear::<V>(),
    {
        let m = SyncMapImpl {
            read: HashMap::with_capacity(capacity),
            dirty: HashMap::with_capacity(capacity),
        };
        proof {
            assert(m.shadow_map() =~= Map::<u64, V>::empty());
            assert(m.dirty_map() =~= Map::<u64, V>::empty());
        }
        m
    }

    pub fn new_arc() -> (m: Arc<Self>)
        ensures
            m.well_formed(),
            m.state() == st_clear::<V>(),
    {
        Arc::new(Self::new())
    }

    /// Stores `v` under `k` in the authoritative store and returns the
    /// value it replaces, if any.  A new key is also published to the
    /// shadow store; an overwrite leaves the shadow store untouched,
    /// so the read path keeps serving the earlier value.
    pub fn insert(&mut self, k: u64, v: V) -> (r: Option<Arc<V>>)
        requires
            old(self).well_formed(),
        ensures
            final(self).well_formed(),
            final(self).state() == st_insert(old(self).state(), k, v),
            match r {
                Some(prev) => old(self).state().auth.contains_key(k) && *prev == old(
                    self,
                ).state().auth[k],
                None => !old(self).state().auth.contains_key(k),
            },
    {
        let a = Arc::new(v);
        let alias = arc_share(&a);
        let prev = self.dirty.insert(k, a);
        match prev {
            None => {
                self.read.insert(k, alias);
                proof {
                    assert(self.state() =~~= st_insert(old(self).state(), k, v));
                    assert(self.read@.dom() =~= self.dirty@.dom());
                }
                None
            },
            Some(p) => {
                proof {
                    assert(self.state() =~~= st_insert(old(self).state(), k, v));
                    assert(self.read@.dom() =~= self.dirty@.dom());
                }
                Some(p)
            },
        }
    }

    /// Removes `k` from both stores.  The authoritative value is
    /// returned to the caller; the shadow store's alias is discarded
    /// without releasing the value it refers to.
    pub fn remove(&mut self, k: &u64) -> (r: Option<Arc<V>>)
        requires
            old(self).well_formed(),
        ensures
            final(self).well_formed(),
            final(self).state() == st_remove(old(self).state(), *k),
            match r {
                Some(prev) => old(self).state().auth.contains_key(*k) && *prev == old(
                    self,
                ).state().auth[*k],
                None => !old(self).state().auth.contains_key(*k),
            },
    {
        let prev = self.dirty.remove(k);
        match prev {
            Some(p) => {
                self.read.remove(k);
                proof {
                    assert(self.state() =~~= st_remove(old(self).state(), *k));
                    assert(self.read@.dom() =~= self.dirty@.dom());
                }
                Some(p)
            },
            None => {
                proof {
                    assert(self.state() =~~= st_remove(old(self).state(), *k));
                }
                None
            },
        }
    }

    /// Looks `k` up in the shadow store, without consulting the
    /// authoritative store.  After an overwrite this may be a stale
    /// value; after a remove it is empty.
    pub fn get<'a>(&'a self, k: &u64) -> (r: Option<&'a V>)
        ensures
            match r {
                Some(v) => st_get(self.state(), *k) == Some(*v) && self@.contains_key(*k) && *v
                    == self@[*k],
                None => st_get(self.state(), *k) is None && !self@.contains_key(*k),
            },
    {
        match self.read.get(k) {
            Some(a) => Some(&**a),
            None => None,
        }
    }

    /// The exclusive-access path: hands out the authoritative store's
    /// slot for `k`, or empty when the key is absent.  A replacement
    /// written through the slot changes only the authoritative store;
    /// the shadow store keeps serving the value it already holds.
    pub fn get_mut<'a>(&'a mut self, k: &u64) -> (r: Option<&'a mut Arc<V>>)
        requires
            old(self).well_formed(),
        ensures
            match r {
                Some(slot) => {
                    &&& old(self).state().auth.contains_key(*k)
                    &&& **slot == old(self).state().auth[*k]
                    &&& final(self).state().auth == old(self).state().auth.insert(
                        *k,
                        **final(slot),
                    )
                    &&& final(self).state().shadow == old(self).state().shadow
                    &&& final(self).well_formed()
                },
                None => {
                    &&& !old(self).state().auth.contains_key(*k)
                    &&& final(self).state() == old(self).state()
                    &&& final(self).well_formed()
                },
            },
    {
        map_slot_mut(&mut self.dirty, k)
    }

    /// Reports the shadow store's cardinality.
    pub fn len(&self) -> (n: usize)
        ensures
            n == st_len(self.state()),
    {
        self.read.len()
    }

    pub fn is_empty(&self) -> (r: bool)
        ensures
            r <==> st_len(self.state()) == 0,
    {
        self.len() == 0
    }

    /// Empties both stores; every shadow alias is discarded without
    /// releasing the value it refers to.
    pub fn clear(&mut self)
        ensures
            final(self).well_formed(),
            final(self).state() == st_clear::<V>(),
    {
        self.dirty.clear();
        self.read.clear();
        proof {
            assert(self.shadow_map() =~= Map::<u64, V>::empty());
            assert(self.dirty_map() =~= Map::<u64, V>::empty());
        }
    }

    /// Bulk load: takes a plain key/value mapping, given as pairs with
    /// pairwise distinct keys, and produces a populated engine.  Every
    /// entry goes in as a new key, so both stores end up identical.
    pub fn from(entries: Vec<(u64, V)>) -> (m: Self)
        requires
            distinct_keys(entries@),
        ensures
            m.well_formed(),
            m.state().auth == pairs_map(entries@),
            m.state().shadow == pairs_map(entries@),
    {
        let ghost s = entries@;
        let mut rest = entries;
        let mut m = Self::with_capacity(rest.len());
        proof {
            assert(m.state().auth =~= pairs_map_from(s, s.len() as int));
            assert(m.state().shadow =~= pairs_map_from(s, s.len() as int));
        }
        while rest.len() > 0
            invariant
                distinct_keys(s),
                rest@ == s.take(rest@.len() as int),
                rest@.len() <= s.len(),
                m.well_formed(),
                m.state().auth == pairs_map_from(s, rest@.len() as int),
                m.state().shadow == pairs_map_from(s, rest@.len() as int),
            decreases rest@.len(),
        {
            let ghost n = rest@.len() as int;
            let p = rest.pop().unwrap();
            proof {
                assert(p == s[n - 1]);
                lemma_pairs_map_from_dom(s, n);
                assert(!m.state().auth.contains_key(p.0));
            }
            let _ = m.insert(p.0, p.1);
            proof {
                assert(rest@ =~= s.take(rest@.len() as int));
                assert(m.state().auth =~= pairs_map_from(s, n - 1));
                assert(m.state().shadow =~= pairs_map_from(s, n - 1));
            }
        }
        m
    }

    /// Starts a read-only iteration over the shadow store's current
    /// contents: every live entry appears exactly once, in no
    /// particular order.
    pub fn iter<'a>(&'a self) -> (it: Iter<'a, V>)
        ensures
            it.remaining().len() == self@.dom().len(),
            forall|i: int|
                0 <= i < it.remaining().len() ==> self@.contains_key(
                    (#[trigger] it.remaining()[i]).0,
                ) && it.remaining()[i].1 == self@[it.remaining()[i].0],
            forall|k: u64| #[trigger]
                self@.contains_key(k) ==> it.remaining().contains((k, self@[k])),
            distinct_keys(it.remaining()),
    {
        let mut snapshot: Vec<(u64, &'a V)> = Vec::new();
        for p in inner: self.read.iter()
            invariant
                snapshot@.len() == inner.index(),
                inner.seq().len() >= inner.index(),
                forall|i: int|
                    0 <= i < snapshot@.len() ==> (#[trigger] snapshot@[i]).0 == *inner.seq()[i].0
                        && snapshot@[i].1 == &**inner.seq()[i].1,
        {
            snapshot.push((*p.0, &**p.1));
        }
        let it = Iter { entries: snapshot, pos: 0 };
        proof {
            self.lemma_snapshot_covers(
                vstd::std_specs::hash::spec_hash_map_iter(&self.read).remaining(),
                it,
            );
        }
        it
    }

    /// The sequence a fresh snapshot of the shadow store denotes has
    /// exactly the shadow map's entries, each once.
    proof fn lemma_snapshot_covers(
        self,
        full: Seq<(&u64, &Arc<V>)>,
        it: Iter<'_, V>,
    )
        requires
            full.len() == self.read@.dom().len(),
            forall|i: int|
                0 <= i < full.len() ==> self.read@.contains_key(*(#[trigger] full[i]).0)
                    && self.read@[*full[i].0] == *full[i].1,
            forall|k: u64| #[trigger]
                self.read@.contains_key(k) ==> full.contains((&k, &self.read@[k])),
            full.no_duplicates(),
            it.remaining().len() == full.len(),
            forall|i: int|
                0 <= i < full.len() ==> (#[trigger] it.remaining()[i]).0 == *full[i].0
                    && it.remaining()[i].1 == **full[i].1,
        ensures
            it.remaining().len() == self@.dom().len(),
            forall|i: int|
                0 <= i < it.remaining().len() ==> self@.contains_key(
                    (#[trigger] it.remaining()[i]).0,
                ) && it.remaining()[i].1 == self@[it.remaining()[i].0],
            forall|k: u64| #[trigger]
                self@.contains_key(k) ==> it.remaining().contains((k, self@[k])),
            distinct_keys(it.remaining()),
    {
        let r = it.remaining();
        assert forall|i: int, j: int| 0 <= i < j < r.len() implies (#[trigger] r[i]).0 != (
        #[trigger] r[j]).0 by {
            if r[i].0 == r[j].0 {
                assert(*full[i].0 == *full[j].0);
                assert(self.read@[*full[i].0] == *full[i].1);
                assert(self.read@[*full[j].0] == *full[j].1);
                assert(full[i] == full[j]);
            }
        }
        assert forall|k: u64| #[trigger] self@.contains_key(k) implies r.contains((k, self@[k])) by {
            assert(self.read@.contains_key(k));
            assert(full.contains((&k, &self.read@[k])));
            let i = choose|i: int| 0 <= i < full.len() && full[i] == (&k, &self.read@[k]);
            assert(r[i] == (k, self@[k]));
            assert(r.contains(r[i]));
        }
    }

    /// Begins exclusive full-map iteration: records the authoritative
    /// store's current keys, each exactly once.  Stepping the cursor
    /// with `IterMut::next` and passing each key to `get_mut` visits
    /// every authoritative entry; replacements written that way leave
    /// the shadow store stale, exactly as single-key overwrites do.
    pub fn iter_mut(&self) -> (it: IterMut)
        ensures
            it.remaining_keys().no_duplicates(),
            forall|k: u64|
                #[trigger] it.remaining_keys().contains(k) <==> self.state().auth.contains_key(k),
            it.remaining_keys().len() == self.state().auth.dom().len(),
    {
        let mut keys: Vec<u64> = Vec::new();
        for p in inner: self.dirty.iter()
            invariant
                keys@.len() == inner.index(),
                inner.seq().len() >= inner.index(),
                forall|i: int| 0 <= i < keys@.len() ==> (#[trigger] keys@[i]) == *inner.seq()[i].0,
        {
            keys.push(*p.0);
        }
        let it = IterMut { keys, pos: 0 };
        proof {
            self.lemma_keys_cover(
                vstd::std_specs::hash::spec_hash_map_iter(&self.dirty).remaining(),
                it,
            );
        }
        it
    }

    /// The keys a fresh exclusive-iteration cursor holds are exactly
    /// the authoritative store's keys, each once.
    proof fn lemma_keys_cover(self, full: Seq<(&u64, &Arc<V>)>, it: IterMut)
        requires
            full.len() == self.dirty@.dom().len(),
            forall|i: int|
                0 <= i < full.len() ==> self.dirty@.contains_key(*(#[trigger] full[i]).0)
                    && self.dirty@[*full[i].0] == *full[i].1,
            forall|k: u64| #[trigger]
                self.dirty@.contains_key(k) ==> full.contains((&k, &self.dirty@[k])),
            full.no_duplicates(),
            it.remaining_keys().len() == full.len(),
            forall|i: int|
                0 <= i < full.len() ==> (#[trigger] it.remaining_keys()[i]) == *full[i].0,
        ensures
            it.remaining_keys().no_duplicates(),
            forall|k: u64|
                #[trigger] it.remaining_keys().contains(k) <==> self.state().auth.contains_key(k),
            it.remaining_keys().len() == self.state().auth.dom().len(),
    {
        let r = it.remaining_keys();
        assert forall|i: int, j: int| 0 <= i < j < r.len() implies r[i] != r[j] by {
            if r[i] == r[j] {
                assert(*full[i].0 == *full[j].0);
                assert(self.dirty@[*full[i].0] == *full[i].1);
                assert(self.dirty@[*full[j].0] == *full[j].1);
                assert(full[i] == full[j]);
            }
        }
        assert forall|k: u64| #[trigger]
            r.contains(k) <==> self.state().auth.contains_key(k) by {
            if r.contains(k) {
                let i = choose|i: int| 0 <= i < r.len() && r[i] == k;
                assert(self.dirty@.contains_key(*full[i].0));
            }
            if self.state().auth.contains_key(k) {
                assert(self.dirty@.contains_key(k));
                assert(full.contains((&k, &self.dirty@[k])));
                let i = choose|i: int| 0 <= i < full.len() && full[i] == (&k, &self.dirty@[k]);
                assert(r[i] == k);
                assert(r.contains(r[i]));
            }
        }
    }

    /// Consumes the engine and hands back the read path's contents as
    /// owned pairs, each live entry exactly once, in no particular
    /// order.
    pub fn into_iter(self) -> (out: Vec<(u64, Arc<V>)>)
        ensures
            out@.len() == self@.dom().len(),
            forall|i: int|
                0 <= i < out@.len() ==> self@.contains_key((#[trigger] out@[i]).0) && *out@[i].1
                    == self@[out@[i].0],
            forall|k: u64| #[trigger]
                self@.contains_key(k) ==> exists|i: int| 0 <= i < out@.len() && (#[trigger] out@[i]).0
                    == k,
            distinct_keys(out@),
    {
        let mut out: Vec<(u64, Arc<V>)> = Vec::new();
        for p in inner: self.read.iter()
            invariant
                out@.len() == inner.index(),
                inner.seq().len() >= inner.index(),
                forall|i: int|
                    0 <= i < out@.len() ==> (#[trigger] out@[i]).0 == *inner.seq()[i].0 && out@[i].1
                        == *inner.seq()[i].1,
        {
            out.push((*p.0, arc_share(p.1)));
        }
        proof {
            let full = vstd::std_specs::hash::spec_hash_map_iter(&self.read).remaining();
            assert forall|i: int, j: int| 0 <= i < j < out@.len() implies (#[trigger] out@[i]).0 != (
            #[trigger] out@[j]).0 by {
                if out@[i].0 == out@[j].0 {
                    assert(*full[i].0 == *full[j].0);
                    assert(self.read@[*full[i].0] == *full[i].1);
                    assert(self.read@[*full[j].0] == *full[j].1);
                    assert(full[i] == full[j]);
                }
            }
            assert forall|k: u64| #[trigger] self@.contains_key(k) implies exists|i: int|
                0 <= i < out@.len() && (#[trigger] out@[i]).0 == k by {
                assert(self.read@.contains_key(k));
                assert(full.contains((&k, &self.read@[k])));
                let i = choose|i: int| 0 <= i < full.len() && full[i] == (&k, &self.read@[k]);
                assert(out@[i].0 == k);
            }
        }
        out
    }

    /// Asks both stores to release unused backing capacity; the
    /// logical contents do not change.
    pub fn shrink_to_fit(&mut self)
        requires
            old(self).well_formed(),
        ensures
            final(self).well_formed(),
            final(self).state() == old(self).state(),
    {
        map_shrink(&mut self.read);
        map_shrink(&mut self.dirty);
    }
}

/// A read-only iteration over the shadow store: a snapshot of
/// references taken when the iteration began, yielded front to back.
pub struct Iter<'a, V> {
    entries: Vec<(u64, &'a V)>,
    pos: usize,
}

impl<'a, V> Iter<'a, V> {
    /// The pairs this iteration will still yield, in order.
    pub closed spec fn remaining(self) -> Seq<(u64, V)> {
        self.entries@.skip(self.pos as int).map(|i: int, p: (u64, &'a V)| (p.0, *p.1))
    }

    #[verifier::type_invariant]
    closed spec fn inv(self) -> bool {
        self.pos <= self.entries@.len()
    }

    /// Yields the next key/value pair, or empty once every pair has
    /// been handed out.
    pub fn next(&mut self) -> (r: Option<(u64, &'a V)>)
        ensures
            old(self).remaining().len() == 0 ==> r is None && final(self).remaining() == old(
                self,
            ).remaining(),
            old(self).remaining().len() > 0 ==> {
                &&& r matches Some(p) && (p.0, *p.1) == old(self).remaining()[0]
                &&& final(self).remaining() == old(self).remaining().drop_first()
            },
    {
        proof {
            use_type_invariant(&*self);
        }
        if self.pos < self.entries.len() {
            let p = self.entries[self.pos];
            self.pos = self.pos + 1;
            proof {
                assert(self.remaining() =~= old(self).remaining().drop_first());
            }
            Some(p)
        } else {
            proof {
                assert(self.remaining() =~= old(self).remaining());
                assert(old(self).remaining().len() == 0);
            }
            None
        }
    }
}

/// A cursor for exclusive full-map iteration: the authoritative
/// store's keys at the time the iteration began, visited front to
/// back; each key is handed to `SyncMapImpl::get_mut` for the entry
/// itself.
pub struct IterMut {
    keys: Vec<u64>,
    pos: usize,
}

impl IterMut {
    /// The keys this iteration will still visit, in order.
    pub closed spec fn remaining_keys(self) -> Seq<u64> {
        self.keys@.skip(self.pos as int)
    }

    #[verifier::type_invariant]
    closed spec fn inv(self) -> bool {
        self.pos <= self.keys@.len()
    }

    /// Yields the next key to visit, or empty once every key has been
    /// handed out.
    pub fn next(&mut self) -> (r: Option<u64>)
        ensures
            old(self).remaining_keys().len() == 0 ==> r is None && final(self).remaining_keys()
                == old(self).remaining_keys(),
            old(self).remaining_keys().len() > 0 ==> r == Some(old(self).remaining_keys()[0])
                && final(self).remaining_keys() == old(self).remaining_keys().drop_first(),
    {
        proof {
            use_type_invariant(&*self);
        }
        if self.pos < self.keys.len() {
            let k = self.keys[self.pos];
            self.pos = self.pos + 1;
            proof {
                assert(self.remaining_keys() =~= old(self).remaining_keys().drop_first());
            }
            Some(k)
        } else {
            proof {
                assert(self.remaining_keys() =~= old(self).remaining_keys());
            }
            None
        }
    }
}

impl<V> View for SyncMapImpl<V> {
    type V = Map<u64, V>;

    open spec fn view(&self) -> Map<u64, V> {
        self.shadow_map()
    }
}

} // verus!
