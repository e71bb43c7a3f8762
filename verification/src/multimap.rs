use crate::laws::lemma_index_with_keeps_mirror;
use crate::laws::lemma_index_without_keeps_mirror;
use crate::relation::index_lookup;
use crate::relation::index_relates;
use crate::relation::index_with;
use crate::relation::index_without;
use crate::relation::indexes_mirror;
use crate::relation::Relation;
use std::collections::HashMap;
use std::collections::HashSet;
use std::hash::Hash;
use vstd::prelude::*;
use vstd::std_specs::hash::obeys_key_model;

verus! {

broadcast use vstd::std_specs::hash::group_hash_axioms;

/// What the container asks of a key type: hashing and `==` agree with
/// mathematical equality, and a clone equals the value it was made from.
pub open spec fn key_model<T: Clone>() -> bool {
    &&& obeys_key_model::<T>()
    &&& forall|a: T, b: T| #[trigger] call_ensures(T::clone, (&a,), b) ==> a == b
}

/// A many-to-many relation between left keys `K` and right keys `V`, indexed
/// from both sides: `kvs` files the right keys under each left key, `vks` the
/// left keys under each right key. The two empty sets are what a lookup of a
/// key without an entry hands out.
#[derive(Debug)]
pub struct MbiMap<K: Hash, V: Hash> {
    kvs: HashMap<K, HashSet<V>>,
    vks: HashMap<V, HashSet<K>>,
    empty_k: HashSet<V>,
    empty_v: HashSet<K>,
}

impl<K: Hash, V: Hash> View for MbiMap<K, V> {
    type V = Relation<K, V>;

    /// The pairs filed in the forward index, and the entries of both indexes.
    open spec fn view(&self) -> Relation<K, V> {
        Relation {
            pairs: Set::new(|p: (K, V)| index_relates(self.forward(), p.0, p.1)),
            lefts: self.forward().dom(),
            rights: self.backward().dom(),
        }
    }
}

impl<K: Hash, V: Hash> MbiMap<K, V> {
    /// The forward index: each left key that has an entry, with its right keys.
    pub closed spec fn forward(&self) -> Map<K, Set<V>> {
        Map::new(|k: K| self.kvs@.contains_key(k), |k: K| self.kvs@[k]@)
    }

    /// The backward index: each right key that has an entry, with its left keys.
    pub closed spec fn backward(&self) -> Map<V, Set<K>> {
        Map::new(|v: V| self.vks@.contains_key(v), |v: V| self.vks@[v]@)
    }
}

/// Wraps `HashMap::get_mut`: a present key yields a mutable borrow of its
/// value, and whatever is left behind through that borrow is the key's value
/// afterwards; an absent key yields `None` and the map is untouched.
#[verifier::external_body]
fn slot_mut<'a, A: Eq + Hash, B>(m: &'a mut HashMap<A, B>, k: &A) -> (slot: Option<&'a mut B>)
    ensures
        obeys_key_model::<A>() ==> match slot {
            Some(s) => old(m)@.contains_key(*k) && *s == old(m)@[*k] && final(m)@ == old(m)@.insert(
                *k,
                *final(s),
            ),
            None => !old(m)@.contains_key(*k) && final(m)@ == old(m)@,
        },
{
    m.get_mut(k)
}

/// Adds a clone of every element of `items` to `set`.
fn extend_cloned<T: Clone + Eq + Hash>(set: &mut HashSet<T>, items: &Vec<T>)
    requires
        key_model::<T>(),
    ensures
        final(set)@ == old(set)@.union(items@.to_set()),
{
    let ghost mut done: Set<T> = Set::empty();
    let mut i: usize = 0;
    while i < items.len()
        invariant
            key_model::<T>(),
            i <= items.len(),
            forall|j: int| 0 <= j < i ==> done.contains(#[trigger] items@[j]),
            done.subset_of(items@.to_set()),
            set@ == old(set)@.union(done),
        decreases items.len() - i,
    {
        let item = items[i].clone();
        set.insert(item);
        proof {
            done = done.insert(item);
        }
        i += 1;
    }
}

impl<K: Clone + Eq + Hash, V: Clone + Eq + Hash> MbiMap<K, V> {
    /// The two indexes mirror each other, and the key types behave.
    pub closed spec fn wf(&self) -> bool {
        &&& key_model::<K>()
        &&& key_model::<V>()
        &&& self.empty_k@ == Set::<V>::empty()
        &&& self.empty_v@ == Set::<K>::empty()
        &&& indexes_mirror(self.forward(), self.backward())
    }

    /// In a well-formed map the two indexes mirror each other: a pair is filed
    /// in the forward index exactly when it is filed in the backward index, so
    /// a lookup from the left shows `r` under `l` exactly when a lookup from
    /// the right shows `l` under `r`. The lookups are those of the relation,
    /// every pair has its two entries, and the relation with its entries
    /// determines both indexes.
    pub proof fn lemma_indexes_mirror(&self)
        requires
            self.wf(),
        ensures
            key_model::<K>(),
            key_model::<V>(),
            indexes_mirror(self.forward(), self.backward()),
            forall|l: K, r: V|
                index_lookup(self.forward(), l).contains(r) <==> index_lookup(
                    self.backward(),
                    r,
                ).contains(l),
            forall|l: K| index_lookup(self.forward(), l) == self@.rights_of(l),
            forall|r: V| index_lookup(self.backward(), r) == self@.lefts_of(r),
            self@.well_formed(),
            self.forward() == Map::new(|l: K| self@.lefts.contains(l), |l: K| self@.rights_of(l)),
            self.backward() == Map::new(|r: V| self@.rights.contains(r), |r: V| self@.lefts_of(r)),
    {
        assert forall|l: K, r: V|
            index_lookup(self.forward(), l).contains(r) <==> index_lookup(
                self.backward(),
                r,
            ).contains(l) by {
            assert(index_relates(self.forward(), l, r) <==> index_relates(self.backward(), r, l));
        }
        let forward = Map::new(|l: K| self@.lefts.contains(l), |l: K| self@.rights_of(l));
        let backward = Map::new(|r: V| self@.rights.contains(r), |r: V| self@.lefts_of(r));
        assert forall|l: K| self.forward().contains_key(l) implies self.forward()[l]
            == forward[l] by {
            assert(index_lookup(self.forward(), l) == self@.rights_of(l));
        }
        assert forall|r: V| self.backward().contains_key(r) implies self.backward()[r]
            == backward[r] by {
            assert(index_lookup(self.backward(), r) == self@.lefts_of(r));
        }
        assert(self.forward() =~= forward);
        assert(self.backward() =~= backward);
    }

    /// An empty map: no pairs, no entries.
    pub fn new() -> (m: Self)
        requires
            key_model::<K>(),
            key_model::<V>(),
        ensures
            m.wf(),
            m.forward() == Map::<K, Set<V>>::empty(),
            m.backward() == Map::<V, Set<K>>::empty(),
            m@ == Relation::<K, V>::empty(),
    {
        Self {
            kvs: HashMap::new(),
            vks: HashMap::new(),
            empty_k: HashSet::new(),
            empty_v: HashSet::new(),
        }
    }

    /// Relates `k` and `v`, filing each under the other. A pair that is
    /// already there stays as it is.
    pub fn insert(&mut self, k: K, v: V)
        requires
            old(self).wf(),
        ensures
            final(self).wf(),
            final(self).forward() == index_with(old(self).forward(), k, v),
            final(self).backward() == index_with(old(self).backward(), v, k),
            final(self)@ == old(self)@.insert(k, v),
    {
        let k1 = k.clone();
        let v1 = v.clone();
        self.kvs.entry(k1).or_insert(HashSet::new()).insert(v1);
        self.vks.entry(v).or_insert(HashSet::new()).insert(k);
        proof {
            assert(self.backward() =~= index_with(old(self).backward(), v, k));
            lemma_index_with_keeps_mirror(old(self).forward(), old(self).backward(), k, v);
        }
    }

    /// Relates `k` to every element of `vs`. The forward entry of `k` is
    /// looked up once and extended; the backward index is touched once for
    /// each element. Repeated elements count once.
    pub fn insert_by_left(&mut self, k: K, vs: Vec<V>)
        requires
            old(self).wf(),
        ensures
            final(self).wf(),
            final(self)@ == old(self)@.insert_by_left(k, vs@.to_set()),
    {
        let ghost items = vs@;
        let k1 = k.clone();
        extend_cloned(self.kvs.entry(k1).or_insert(HashSet::new()), &vs);
        let ghost mut done: Set<V> = Set::empty();
        for v in it: vs
            invariant
                key_model::<K>(),
                key_model::<V>(),
                it.seq() == items,
                forall|j: int| 0 <= j < it.index() ==> done.contains(#[trigger] it.seq()[j]),
                done.subset_of(items.to_set()),
                self.forward() == old(self).forward().insert(
                    k,
                    index_lookup(old(self).forward(), k).union(items.to_set()),
                ),
                self.empty_k == old(self).empty_k,
                self.empty_v == old(self).empty_v,
                self.backward().dom() == old(self).backward().dom().union(done),
                forall|a: K, b: V|
                    index_relates(self.backward(), b, a) <==> #[trigger] index_relates(
                        old(self).backward(),
                        b,
                        a,
                    ) || (a == k && done.contains(b)),
        {
            let ghost before = self.backward();
            let k2 = k.clone();
            self.vks.entry(v).or_insert(HashSet::new()).insert(k2);
            proof {
                assert(self.backward() =~= index_with(before, v, k));
                done = done.insert(v);
            }
        }
        proof {
            assert forall|a: K, b: V|
                index_relates(self.forward(), a, b) <==> index_relates(self.backward(), b, a) by {
                let (f0, b0) = (old(self).forward(), old(self).backward());
                assert(index_relates(f0, a, b) <==> index_relates(b0, b, a));
            }
        }
    }

    /// Relates every element of `ks` to `v`. The backward entry of `v` is
    /// looked up once and extended; the forward index is touched once for
    /// each element. Repeated elements count once.
    pub fn insert_by_right(&mut self, ks: Vec<K>, v: V)
        requires
            old(self).wf(),
        ensures
            final(self).wf(),
            final(self)@ == old(self)@.insert_by_right(ks@.to_set(), v),
    {
        let ghost items = ks@;
        let v1 = v.clone();
        extend_cloned(self.vks.entry(v1).or_insert(HashSet::new()), &ks);
        let ghost mut done: Set<K> = Set::empty();
        for k in it: ks
            invariant
                key_model::<K>(),
                key_model::<V>(),
                it.seq() == items,
                forall|j: int| 0 <= j < it.index() ==> done.contains(#[trigger] it.seq()[j]),
                done.subset_of(items.to_set()),
                self.backward() == old(self).backward().insert(
                    v,
                    index_lookup(old(self).backward(), v).union(items.to_set()),
                ),
                self.empty_k == old(self).empty_k,
                self.empty_v == old(self).empty_v,
                self.forward().dom() == old(self).forward().dom().union(done),
                forall|a: K, b: V|
                    index_relates(self.forward(), a, b) <==> #[trigger] index_relates(
                        old(self).forward(),
                        a,
                        b,
                    ) || (done.contains(a) && b == v),
        {
            let ghost before = self.forward();
            let v2 = v.clone();
            self.kvs.entry(k).or_insert(HashSet::new()).insert(v2);
            proof {
                assert(self.forward() =~= index_with(before, k, v));
                done = done.insert(k);
            }
        }
        proof {
            assert forall|a: K, b: V|
                index_relates(self.forward(), a, b) <==> index_relates(self.backward(), b, a) by {
                let (f0, b0) = (old(self).forward(), old(self).backward());
                assert(index_relates(f0, a, b) <==> index_relates(b0, b, a));
            }
        }
    }

    /// The right keys related to `k`; the empty set where there are none,
    /// whether or not `k` has an entry.
    pub fn get_by_left(&self, k: &K) -> (rs: &HashSet<V>)
        requires
            self.wf(),
        ensures
            rs@ == index_lookup(self.forward(), *k),
            rs@ == self@.rights_of(*k),
    {
        match self.kvs.get(k) {
            Some(s) => s,
            None => &self.empty_k,
        }
    }

    /// The left keys related to `v`; the empty set where there are none,
    /// whether or not `v` has an entry.
    pub fn get_by_right(&self, v: &V) -> (ls: &HashSet<K>)
        requires
            self.wf(),
        ensures
            ls@ == index_lookup(self.backward(), *v),
            ls@ == self@.lefts_of(*v),
    {
        proof {
            self.lemma_indexes_mirror();
        }
        match self.vks.get(v) {
            Some(s) => s,
            None => &self.empty_v,
        }
    }

    /// Unrelates `k` and `v`; nothing happens where they were not related.
    /// The entries of `k` and `v` stay, even when they become empty.
    ///
    /// Each index is worked on by itself, so the call needs no well-formed
    /// map: a pair that only one index holds is struck from that index all
    /// the same.
    pub fn remove(&mut self, k: &K, v: &V)
        requires
            key_model::<K>(),
            key_model::<V>(),
        ensures
            final(self).forward() == index_without(old(self).forward(), *k, *v),
            final(self).backward() == index_without(old(self).backward(), *v, *k),
            final(self)@ == old(self)@.remove(*k, *v),
            old(self).wf() ==> final(self).wf(),
    {
        if let Some(kk) = slot_mut(&mut self.kvs, k) {
            kk.remove(v);
        }
        if let Some(vv) = slot_mut(&mut self.vks, v) {
            vv.remove(k);
        }
        proof {
            if old(self).wf() {
                lemma_index_without_keeps_mirror(old(self).forward(), old(self).backward(), *k, *v);
            }
        }
    }

    /// Unrelates `k` from every element of `vs`, one `remove` at a time.
    pub fn remove_by_left(&mut self, k: &K, vs: &Vec<V>)
        requires
            old(self).wf(),
        ensures
            final(self).wf(),
            final(self)@ == old(self)@.remove_by_left(*k, vs@.to_set()),
    {
        let ghost mut done: Set<V> = Set::empty();
        for v in it: vs
            invariant
                it.seq().unref() == vs@,
                forall|j: int| 0 <= j < it.index() ==> done.contains(*#[trigger] it.seq()[j]),
                done.subset_of(vs@.to_set()),
                self.wf(),
                self@ == old(self)@.remove_by_left(*k, done),
        {
            self.remove(k, v);
            proof {
                done = done.insert(*v);
            }
        }
    }

    /// Unrelates every element of `ks` from `v`, one `remove` at a time.
    pub fn remove_by_right(&mut self, ks: &Vec<K>, v: &V)
        requires
            old(self).wf(),
        ensures
            final(self).wf(),
            final(self)@ == old(self)@.remove_by_right(ks@.to_set(), *v),
    {
        let ghost mut done: Set<K> = Set::empty();
        for k in it: ks
            invariant
                it.seq().unref() == ks@,
                forall|j: int| 0 <= j < it.index() ==> done.contains(*#[trigger] it.seq()[j]),
                done.subset_of(ks@.to_set()),
                self.wf(),
                self@ == old(self)@.remove_by_right(done, *v),
        {
            self.remove(k, v);
            proof {
                done = done.insert(*k);
            }
        }
    }

    /// Drops the forward entry of `k` and strikes `k` from the backward entry
    /// of every right key it was related to. Hands back what the entry held,
    /// which may be the empty set, or `None` where `k` had no entry.
    pub fn remove_all_by_left(&mut self, k: &K) -> (removed: Option<HashSet<V>>)
        requires
            old(self).wf(),
        ensures
            final(self).wf(),
            final(self)@ == old(self)@.remove_all_by_left(*k),
            removed is Some <==> old(self)@.lefts.contains(*k),
            removed matches Some(rs) ==> rs@ == old(self)@.rights_of(*k),
    {
        let oitems = self.kvs.remove(k);
        assert(self.forward() =~= old(self).forward().remove(*k));
        if let Some(vs) = &oitems {
            let ghost mut done: Set<V> = Set::empty();
            for v in it: vs.iter()
                invariant
                    key_model::<K>(),
                    key_model::<V>(),
                    it.seq().unref().to_set() == vs@,
                    forall|j: int| 0 <= j < it.index() ==> done.contains(*#[trigger] it.seq()[j]),
                    done.subset_of(vs@),
                    self.forward() == old(self).forward().remove(*k),
                    self.empty_k == old(self).empty_k,
                    self.empty_v == old(self).empty_v,
                    self.backward().dom() == old(self).backward().dom(),
                    forall|a: K, b: V|
                        index_relates(self.backward(), b, a) <==> #[trigger] index_relates(
                            old(self).backward(),
                            b,
                            a,
                        ) && !(a == *k && done.contains(b)),
            {
                if let Some(vv) = slot_mut(&mut self.vks, v) {
                    vv.remove(k);
                }
                proof {
                    done = done.insert(*v);
                }
            }
        }
        proof {
            assert forall|a: K, b: V|
                index_relates(self.forward(), a, b) <==> index_relates(self.backward(), b, a) by {
                let (f0, b0) = (old(self).forward(), old(self).backward());
                assert(index_relates(f0, a, b) <==> index_relates(b0, b, a));
            }
        }
        oitems
    }

    /// Drops the backward entry of `v` and strikes `v` from the forward entry
    /// of every left key it was related to. Hands back what the entry held,
    /// which may be the empty set, or `None` where `v` had no entry.
    pub fn remove_all_by_right(&mut self, v: &V) -> (removed: Option<HashSet<K>>)
        requires
            old(self).wf(),
        ensures
            final(self).wf(),
            final(self)@ == old(self)@.remove_all_by_right(*v),
            removed is Some <==> old(self)@.rights.contains(*v),
            removed matches Some(ls) ==> ls@ == old(self)@.lefts_of(*v),
    {
        let oitems = self.vks.remove(v);
        assert(self.backward() =~= old(self).backward().remove(*v));
        if let Some(ks) = &oitems {
            let ghost mut done: Set<K> = Set::empty();
            for k in it: ks.iter()
                invariant
                    key_model::<K>(),
                    key_model::<V>(),
                    it.seq().unref().to_set() == ks@,
                    forall|j: int| 0 <= j < it.index() ==> done.contains(*#[trigger] it.seq()[j]),
                    done.subset_of(ks@),
                    self.backward() == old(self).backward().remove(*v),
                    self.empty_k == old(self).empty_k,
                    self.empty_v == old(self).empty_v,
                    self.forward().dom() == old(self).forward().dom(),
                    forall|a: K, b: V|
                        index_relates(self.forward(), a, b) <==> #[trigger] index_relates(
                            old(self).forward(),
                            a,
                            b,
                        ) && !(b == *v && done.contains(a)),
            {
                if let Some(kk) = slot_mut(&mut self.kvs, k) {
                    kk.remove(v);
                }
                proof {
                    done = done.insert(*k);
                }
            }
        }
        proof {
            assert forall|a: K, b: V|
                index_relates(self.forward(), a, b) <==> index_relates(self.backward(), b, a) by {
                let (f0, b0) = (old(self).forward(), old(self).backward());
                assert(index_relates(f0, a, b) <==> index_relates(b0, b, a));
            }
        }
        oitems
    }

    /// Drops every pair and every entry.
    pub fn clear(&mut self)
        requires
            old(self).wf(),
        ensures
            final(self).wf(),
            final(self).forward() == Map::<K, Set<V>>::empty(),
            final(self).backward() == Map::<V, Set<K>>::empty(),
            final(self)@ == Relation::<K, V>::empty(),
    {
        self.kvs.clear();
        self.vks.clear();
    }
}

} // verus!
