use vstd::prelude::*;

verus! {

/// `index` files `b` under the key `a`.
pub open spec fn index_relates<A, B>(index: Map<A, Set<B>>, a: A, b: B) -> bool {
    index.contains_key(a) && index[a].contains(b)
}

/// What a lookup of `a` in `index` shows: the set filed under `a`, or the
/// empty set where `a` has no entry.
pub open spec fn index_lookup<A, B>(index: Map<A, Set<B>>, a: A) -> Set<B> {
    if index.contains_key(a) {
        index[a]
    } else {
        Set::empty()
    }
}

/// `index` after `b` has been filed under `a`; the entry is created if it was missing.
pub open spec fn index_with<A, B>(index: Map<A, Set<B>>, a: A, b: B) -> Map<A, Set<B>> {
    index.insert(a, index_lookup(index, a).insert(b))
}

/// `index` after `b` has been struck from the entry of `a`. The entry itself
/// stays, even when it becomes empty; a missing entry is not created.
pub open spec fn index_without<A, B>(index: Map<A, Set<B>>, a: A, b: B) -> Map<A, Set<B>> {
    if index.contains_key(a) {
        index.insert(a, index[a].remove(b))
    } else {
        index
    }
}

/// The two indexes file the same pairs, each from its own side.
pub open spec fn indexes_mirror<K, V>(forward: Map<K, Set<V>>, backward: Map<V, Set<K>>) -> bool {
    forall|l: K, r: V|
        #![trigger index_relates(forward, l, r)]
        #![trigger index_relates(backward, r, l)]
        index_relates(forward, l, r) <==> index_relates(backward, r, l)
}

/// The mathematical content of a bidirectional multimap.
///
/// `pairs` is the relation itself. `lefts` and `rights` are the keys for
/// which the forward and the backward index currently hold an entry. An
/// entry may be empty, so a key can be listed without taking part in any
/// pair; lookups cannot tell such a key from one that is not listed.
#[verifier::ext_equal]
#[verifier::reject_recursive_types(K)]
#[verifier::reject_recursive_types(V)]
pub struct Relation<K, V> {
    pub pairs: Set<(K, V)>,
    pub lefts: Set<K>,
    pub rights: Set<V>,
}

impl<K, V> Relation<K, V> {
    /// Every pair is covered by an entry on both sides.
    pub open spec fn well_formed(self) -> bool {
        forall|l: K, r: V| #[trigger]
            self.pairs.contains((l, r)) ==> self.lefts.contains(l) && self.rights.contains(r)
    }

    /// No pairs and no entries.
    pub open spec fn empty() -> Self {
        Relation { pairs: Set::empty(), lefts: Set::empty(), rights: Set::empty() }
    }

    /// All right keys related to `l`.
    pub open spec fn rights_of(self, l: K) -> Set<V> {
        Set::new(|r: V| self.pairs.contains((l, r)))
    }

    /// All left keys related to `r`.
    pub open spec fn lefts_of(self, r: V) -> Set<K> {
        Set::new(|l: K| self.pairs.contains((l, r)))
    }

    /// Adds the pair `(l, r)`.
    pub open spec fn insert(self, l: K, r: V) -> Self {
        Relation {
            pairs: self.pairs.insert((l, r)),
            lefts: self.lefts.insert(l),
            rights: self.rights.insert(r),
        }
    }

    /// Adds `(l, r)` for every `r` in `rs`. The entry of `l` is created even
    /// when `rs` is empty.
    pub open spec fn insert_by_left(self, l: K, rs: Set<V>) -> Self {
        Relation {
            pairs: Set::new(|p: (K, V)| self.pairs.contains(p) || (p.0 == l && rs.contains(p.1))),
            lefts: self.lefts.insert(l),
            rights: self.rights.union(rs),
        }
    }

    /// Adds `(l, r)` for every `l` in `ls`. The entry of `r` is created even
    /// when `ls` is empty.
    pub open spec fn insert_by_right(self, ls: Set<K>, r: V) -> Self {
        Relation {
            pairs: Set::new(|p: (K, V)| self.pairs.contains(p) || (ls.contains(p.0) && p.1 == r)),
            lefts: self.lefts.union(ls),
            rights: self.rights.insert(r),
        }
    }

    /// Drops the pair `(l, r)`; the entries stay.
    pub open spec fn remove(self, l: K, r: V) -> Self {
        Relation { pairs: self.pairs.remove((l, r)), lefts: self.lefts, rights: self.rights }
    }

    /// Drops `(l, r)` for every `r` in `rs`; the entries stay.
    pub open spec fn remove_by_left(self, l: K, rs: Set<V>) -> Self {
        Relation {
            pairs: Set::new(
                |p: (K, V)| self.pairs.contains(p) && !(p.0 == l && rs.contains(p.1)),
            ),
            lefts: self.lefts,
            rights: self.rights,
        }
    }

    /// Drops `(l, r)` for every `l` in `ls`; the entries stay.
    pub open spec fn remove_by_right(self, ls: Set<K>, r: V) -> Self {
        Relation {
            pairs: Set::new(
                |p: (K, V)| self.pairs.contains(p) && !(ls.contains(p.0) && p.1 == r),
            ),
            lefts: self.lefts,
            rights: self.rights,
        }
    }

    /// Drops every pair whose left key is `l`, together with the entry of `l`.
    pub open spec fn remove_all_by_left(self, l: K) -> Self {
        Relation {
            pairs: Set::new(|p: (K, V)| self.pairs.contains(p) && p.0 != l),
            lefts: self.lefts.remove(l),
            rights: self.rights,
        }
    }

    /// Drops every pair whose right key is `r`, together with the entry of `r`.
    pub open spec fn remove_all_by_right(self, r: V) -> Self {
        Relation {
            pairs: Set::new(|p: (K, V)| self.pairs.contains(p) && p.1 != r),
            lefts: self.lefts,
            rights: self.rights.remove(r),
        }
    }

    /// The outcome of inserting `(l, rs[0])`, `(l, rs[1])`, ... one pair at a time.
    pub open spec fn insert_each_by_left(self, l: K, rs: Seq<V>) -> Self
        decreases rs.len(),
    {
        if rs.len() == 0 {
            self
        } else {
            self.insert_each_by_left(l, rs.drop_last()).insert(l, rs.last())
        }
    }

    /// The outcome of inserting `(ls[0], r)`, `(ls[1], r)`, ... one pair at a time.
    pub open spec fn insert_each_by_right(self, ls: Seq<K>, r: V) -> Self
        decreases ls.len(),
    {
        if ls.len() == 0 {
            self
        } else {
            self.insert_each_by_right(ls.drop_last(), r).insert(ls.last(), r)
        }
    }

    /// The outcome of removing `(l, rs[0])`, `(l, rs[1])`, ... one pair at a time.
    pub open spec fn remove_each_by_left(self, l: K, rs: Seq<V>) -> Self
        decreases rs.len(),
    {
        if rs.len() == 0 {
            self
        } else {
            self.remove_each_by_left(l, rs.drop_last()).remove(l, rs.last())
        }
    }

    /// The outcome of removing `(ls[0], r)`, `(ls[1], r)`, ... one pair at a time.
    pub open spec fn remove_each_by_right(self, ls: Seq<K>, r: V) -> Self
        decreases ls.len(),
    {
        if ls.len() == 0 {
            self
        } else {
            self.remove_each_by_right(ls.drop_last(), r).remove(ls.last(), r)
        }
    }
}

} // verus!
