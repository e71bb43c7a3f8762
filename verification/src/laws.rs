use crate::relation::index_relates;
use crate::relation::index_with;
use crate::relation::index_without;
use crate::relation::indexes_mirror;
use crate::relation::Relation;
use vstd::prelude::*;

verus! {

/// The elements of a non-empty sequence are those of its front part and its
/// last element.
proof fn lemma_to_set_last<T>(s: Seq<T>)
    requires
        s.len() > 0,
    ensures
        s.to_set() == s.drop_last().to_set().insert(s.last()),
{
    let front = s.drop_last();
    assert forall|x: T| s.to_set().contains(x) <==> front.to_set().insert(s.last()).contains(
        x,
    ) by {
        if s.contains(x) {
            let i = choose|i: int| 0 <= i < s.len() && s[i] == x;
            if i < s.len() - 1 {
                assert(front[i] == x);
            }
        }
    }
}

/// Filing a pair in both of two mirrored indexes leaves them mirrored.
pub proof fn lemma_index_with_keeps_mirror<K, V>(
    forward: Map<K, Set<V>>,
    backward: Map<V, Set<K>>,
    l: K,
    r: V,
)
    requires
        indexes_mirror(forward, backward),
    ensures
        indexes_mirror(index_with(forward, l, r), index_with(backward, r, l)),
{
    let (f1, b1) = (index_with(forward, l, r), index_with(backward, r, l));
    assert forall|a: K, b: V| index_relates(f1, a, b) <==> index_relates(b1, b, a) by {
        assert(index_relates(forward, a, b) <==> index_relates(backward, b, a));
    }
}

/// Striking a pair from both of two mirrored indexes leaves them mirrored.
pub proof fn lemma_index_without_keeps_mirror<K, V>(
    forward: Map<K, Set<V>>,
    backward: Map<V, Set<K>>,
    l: K,
    r: V,
)
    requires
        indexes_mirror(forward, backward),
    ensures
        indexes_mirror(index_without(forward, l, r), index_without(backward, r, l)),
{
    let (f1, b1) = (index_without(forward, l, r), index_without(backward, r, l));
    assert forall|a: K, b: V| index_relates(f1, a, b) <==> index_relates(b1, b, a) by {
        assert(index_relates(forward, a, b) <==> index_relates(backward, b, a));
    }
}

/// Looking up from either side tells the same story: `r` is among the right
/// keys of `l` exactly when `l` is among the left keys of `r`.
pub proof fn lemma_lookups_mirror<K, V>(s: Relation<K, V>, l: K, r: V)
    ensures
        s.rights_of(l).contains(r) <==> s.lefts_of(r).contains(l),
{
}

/// Inserting a pair that was not there and removing it again gives back the
/// relation, and with it every lookup from either side. Where both keys had
/// their entries before, the whole state is as it was; otherwise the only
/// trace is an entry that has become empty.
pub proof fn lemma_insert_then_remove<K, V>(s: Relation<K, V>, l: K, r: V)
    requires
        !s.pairs.contains((l, r)),
    ensures
        s.insert(l, r).remove(l, r).pairs == s.pairs,
        forall|a: K| s.insert(l, r).remove(l, r).rights_of(a) == s.rights_of(a),
        forall|b: V| s.insert(l, r).remove(l, r).lefts_of(b) == s.lefts_of(b),
        s.insert(l, r).remove(l, r).lefts == s.lefts.insert(l),
        s.insert(l, r).remove(l, r).rights == s.rights.insert(r),
        s.lefts.contains(l) && s.rights.contains(r) ==> s.insert(l, r).remove(l, r) == s,
{
}

/// Inserting a pair a second time changes nothing.
pub proof fn lemma_insert_idempotent<K, V>(s: Relation<K, V>, l: K, r: V)
    ensures
        s.insert(l, r).insert(l, r) == s.insert(l, r),
{
}

/// Removing a pair that is not there changes nothing.
pub proof fn lemma_remove_absent<K, V>(s: Relation<K, V>, l: K, r: V)
    requires
        !s.pairs.contains((l, r)),
    ensures
        s.remove(l, r) == s,
{
}

/// A batch insert under one left key relates the same pairs as inserting its
/// elements one at a time, in any order and with any repetitions. With at
/// least one element the two states agree altogether; an empty batch differs
/// from doing nothing only in that it creates the entry of `l`.
pub proof fn lemma_insert_by_left_is_repeated_insert<K, V>(s: Relation<K, V>, l: K, rs: Seq<V>)
    ensures
        s.insert_by_left(l, rs.to_set()).pairs == s.insert_each_by_left(l, rs).pairs,
        s.insert_by_left(l, rs.to_set()).rights == s.insert_each_by_left(l, rs).rights,
        s.insert_by_left(l, rs.to_set()).lefts == s.insert_each_by_left(l, rs).lefts.insert(l),
        rs.len() > 0 ==> s.insert_by_left(l, rs.to_set()) == s.insert_each_by_left(l, rs),
    decreases rs.len(),
{
    if rs.len() > 0 {
        lemma_insert_by_left_is_repeated_insert(s, l, rs.drop_last());
        lemma_to_set_last(rs);
    }
}

/// A batch insert under one right key relates the same pairs as inserting its
/// elements one at a time. With at least one element the two states agree
/// altogether; an empty batch differs from doing nothing only in that it
/// creates the entry of `r`.
pub proof fn lemma_insert_by_right_is_repeated_insert<K, V>(s: Relation<K, V>, ls: Seq<K>, r: V)
    ensures
        s.insert_by_right(ls.to_set(), r).pairs == s.insert_each_by_right(ls, r).pairs,
        s.insert_by_right(ls.to_set(), r).lefts == s.insert_each_by_right(ls, r).lefts,
        s.insert_by_right(ls.to_set(), r).rights == s.insert_each_by_right(ls, r).rights.insert(r),
        ls.len() > 0 ==> s.insert_by_right(ls.to_set(), r) == s.insert_each_by_right(ls, r),
    decreases ls.len(),
{
    if ls.len() > 0 {
        lemma_insert_by_right_is_repeated_insert(s, ls.drop_last(), r);
        lemma_to_set_last(ls);
    }
}

/// A batch removal under one left key is the same as removing its elements
/// one at a time.
pub proof fn lemma_remove_by_left_is_repeated_remove<K, V>(s: Relation<K, V>, l: K, rs: Seq<V>)
    ensures
        s.remove_by_left(l, rs.to_set()) == s.remove_each_by_left(l, rs),
    decreases rs.len(),
{
    if rs.len() > 0 {
        lemma_remove_by_left_is_repeated_remove(s, l, rs.drop_last());
        lemma_to_set_last(rs);
    }
}

/// A batch removal under one right key is the same as removing its elements
/// one at a time.
pub proof fn lemma_remove_by_right_is_repeated_remove<K, V>(s: Relation<K, V>, ls: Seq<K>, r: V)
    ensures
        s.remove_by_right(ls.to_set(), r) == s.remove_each_by_right(ls, r),
    decreases ls.len(),
{
    if ls.len() > 0 {
        lemma_remove_by_right_is_repeated_remove(s, ls.drop_last(), r);
        lemma_to_set_last(ls);
    }
}

/// Once everything under a left key is removed, that key has no right keys
/// and shows up under no right key.
pub proof fn lemma_remove_all_by_left_is_total<K, V>(s: Relation<K, V>, l: K)
    ensures
        s.remove_all_by_left(l).rights_of(l) == Set::<V>::empty(),
        forall|r: V| !s.remove_all_by_left(l).lefts_of(r).contains(l),
        !s.remove_all_by_left(l).lefts.contains(l),
        forall|a: K| a != l ==> s.remove_all_by_left(l).rights_of(a) == s.rights_of(a),
{
}

/// Once everything under a right key is removed, that key has no left keys
/// and shows up under no left key.
pub proof fn lemma_remove_all_by_right_is_total<K, V>(s: Relation<K, V>, r: V)
    ensures
        s.remove_all_by_right(r).lefts_of(r) == Set::<K>::empty(),
        forall|l: K| !s.remove_all_by_right(r).rights_of(l).contains(r),
        !s.remove_all_by_right(r).rights.contains(r),
        forall|b: V| b != r ==> s.remove_all_by_right(r).lefts_of(b) == s.lefts_of(b),
{
}

/// In the empty relation every lookup, from either side, comes back empty.
pub proof fn lemma_empty_lookups<K, V>(l: K, r: V)
    ensures
        Relation::<K, V>::empty().rights_of(l) == Set::<V>::empty(),
        Relation::<K, V>::empty().lefts_of(r) == Set::<K>::empty(),
{
}

} // verus!
