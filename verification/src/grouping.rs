//! Partition of a batch by tag key.
//!
//! The samples of a batch are told apart by the key that each carries. A
//! grouping names, for every key that occurs, the places at which it
//! occurs, in order of arrival; the keys come in ascending order.

use crate::dimension::{
    key_le, lemma_key_le_antisymmetric, lemma_key_le_reflexive, lemma_key_le_total,
    lemma_key_le_transitive, DimensionKey, Pairs,
};
use vstd::prelude::*;

verus! {

/// The keys of a vector of keys.
pub open spec fn key_views(keys: Seq<DimensionKey>) -> Seq<Pairs> {
    keys.map_values(|k: DimensionKey| k@)
}

/// The places at which the key occurs, ascending.
pub open spec fn places_of(keys: Seq<Pairs>, key: Pairs) -> Seq<usize>
    decreases keys.len(),
{
    if keys.len() == 0 {
        Seq::empty()
    } else if keys.last() == key {
        places_of(keys.drop_last(), key).push((keys.len() - 1) as usize)
    } else {
        places_of(keys.drop_last(), key)
    }
}

/// A group as contracts see it: a key and the places at which it occurs.
pub type GroupView = (Pairs, Seq<usize>);

/// The groups of a vector of groups.
pub open spec fn group_views(groups: Seq<(DimensionKey, Vec<usize>)>) -> Seq<GroupView> {
    groups.map_values(|g: (DimensionKey, Vec<usize>)| (g.0@, g.1@))
}

/// Whether one of the groups carries the key.
pub open spec fn has_group(groups: Seq<GroupView>, key: Pairs) -> bool {
    exists|g: int| 0 <= g < groups.len() && (#[trigger] groups[g]).0 == key
}

/// Whether the groups are the partition of the places by key: every key
/// that occurs has one group; a group holds every place of its key, in
/// order; the groups come in strictly ascending order of key.
pub open spec fn is_grouping(keys: Seq<Pairs>, groups: Seq<GroupView>) -> bool {
    &&& forall|a: int, b: int|
        0 <= a < b < groups.len() ==> key_le((#[trigger] groups[a]).0, (#[trigger] groups[b]).0)
            && groups[a].0 != groups[b].0
    &&& forall|g: int|
        0 <= g < groups.len() ==> (#[trigger] groups[g]).1 == places_of(keys, groups[g].0)
            && groups[g].1.len() > 0
    &&& forall|i: int| 0 <= i < keys.len() ==> has_group(groups, #[trigger] keys[i])
}

/// The places of a key are places of the block, ascending, and the key
/// stands at each of them; a key that does not occur has none.
pub proof fn lemma_places_of(keys: Seq<Pairs>, key: Pairs)
    requires
        keys.len() <= usize::MAX,
    ensures
        forall|j: int|
            0 <= j < places_of(keys, key).len() ==> (#[trigger] places_of(keys, key)[j])
                < keys.len() && keys[places_of(keys, key)[j] as int] == key,
        forall|j: int, k: int|
            0 <= j < k < places_of(keys, key).len() ==> places_of(keys, key)[j] < places_of(
                keys,
                key,
            )[k],
        (forall|i: int| 0 <= i < keys.len() ==> keys[i] != key) ==> places_of(keys, key).len() == 0,
        places_of(keys, key).len() <= keys.len(),
    decreases keys.len(),
{
    if keys.len() > 0 {
        let rest = keys.drop_last();
        lemma_places_of(rest, key);
        assert forall|i: int| 0 <= i < rest.len() implies rest[i] == keys[i] by {}
        if forall|i: int| 0 <= i < keys.len() ==> keys[i] != key {
            assert forall|i: int| 0 <= i < rest.len() implies rest[i] != key by {}
        }
        let p = places_of(keys, key);
        let q = places_of(rest, key);
        assert forall|j: int| 0 <= j < p.len() implies (#[trigger] p[j]) < keys.len() && keys[p[j] as int]
            == key by {
            if j < q.len() {
                assert(p[j] == q[j]);
                assert(rest[q[j] as int] == key);
            }
        }
        assert forall|j: int, k: int| 0 <= j < k < p.len() implies p[j] < p[k] by {
            assert(p[j] == q[j]);
            if k < q.len() {
                assert(p[k] == q[k]);
            }
        }
    }
}

/// Groups the places `0..keys.len()` by the key that stands at each.
pub fn group_by_key(keys: &Vec<DimensionKey>) -> (r: Vec<(DimensionKey, Vec<usize>)>)
    ensures
        is_grouping(key_views(keys@), group_views(r@)),
{
    let ghost all = key_views(keys@);
    let mut groups: Vec<(DimensionKey, Vec<usize>)> = Vec::new();
    let mut i: usize = 0;
    assert(all.take(0) =~= Seq::<Pairs>::empty());
    while i < keys.len()
        invariant
            i <= keys@.len(),
            all == key_views(keys@),
            is_grouping(all.take(i as int), group_views(groups@)),
        decreases keys@.len() - i,
    {
        let ghost seen = all.take(i as int);
        let ghost next = all.take(i + 1);
        let ghost before = group_views(groups@);
        let key = &keys[i];
        let ghost k = key@;
        assert(k == all[i as int]);
        let mut at: usize = 0;
        while at < groups.len() && !key.precedes(&groups[at].0)
            invariant
                at <= groups@.len(),
                before == group_views(groups@),
                k == key@,
                forall|g: int| 0 <= g < at ==> !key_le(k, (#[trigger] before[g]).0),
            decreases groups@.len() - at,
        {
            assert(before[at as int].0 == groups@[at as int].0@);
            at += 1;
        }
        let found = at < groups.len() && groups[at].0.precedes(key);
        proof {
            assert(next.drop_last() =~= seen);
            assert(next.last() == k);
            lemma_key_le_reflexive(k);
            if at < groups@.len() {
                assert(before[at as int].0 == groups@[at as int].0@);
                if found {
                    lemma_key_le_antisymmetric(k, before[at as int].0);
                }
            }
            // no group but the one found carries the key
            assert forall|g: int| 0 <= g < before.len() && !(found && g == at) implies (
            #[trigger] before[g]).0 != k by {
                if g > at {
                    if before[g].0 == k {
                        assert(key_le(before[at as int].0, before[g].0));
                        assert(!found);
                    }
                }
            }
            assert forall|g: int| 0 <= g < before.len() && before[g].0 != k implies places_of(
                next,
                (#[trigger] before[g]).0,
            ) == before[g].1 by {}
            if !found {
                assert forall|j: int| 0 <= j < seen.len() implies seen[j] != k by {
                    assert(has_group(before, seen[j]));
                    let g = choose|g: int| 0 <= g < before.len() && (#[trigger] before[g]).0
                        == seen[j];
                    assert(before[g].0 != k);
                }
                lemma_places_of(seen, k);
                assert(places_of(next, k) =~= seq![i]);
            }
        }
        if found {
            groups[at].1.push(i);
            proof {
                let after = group_views(groups@);
                assert(after =~= before.update(
                    at as int,
                    (before[at as int].0, before[at as int].1.push(i)),
                ));
                assert forall|a: int, b: int| 0 <= a < b < after.len() implies key_le(
                    (#[trigger] after[a]).0,
                    (#[trigger] after[b]).0,
                ) && after[a].0 != after[b].0 by {
                    assert(after[a].0 == before[a].0 && after[b].0 == before[b].0);
                }
                assert forall|g: int| 0 <= g < after.len() implies (#[trigger] after[g]).1
                    == places_of(next, after[g].0) && after[g].1.len() > 0 by {
                    assert(after[g].0 == before[g].0);
                    if g != at {
                        assert(after[g] == before[g]);
                    }
                }
                assert forall|j: int| 0 <= j < next.len() implies has_group(
                    after,
                    #[trigger] next[j],
                ) by {
                    if j < i {
                        assert(has_group(before, seen[j]));
                        let g = choose|g: int| 0 <= g < before.len() && (#[trigger] before[g]).0
                            == seen[j];
                        assert(after[g].0 == next[j]);
                    } else {
                        assert(after[at as int].0 == next[j]);
                    }
                }
            }
        } else {
            let mut places: Vec<usize> = Vec::new();
            places.push(i);
            groups.insert(at, (key.clone(), places));
            proof {
                let after = group_views(groups@);
                assert(after =~= before.insert(at as int, (k, seq![i])));
                assert forall|a: int, b: int| 0 <= a < b < after.len() implies key_le(
                    (#[trigger] after[a]).0,
                    (#[trigger] after[b]).0,
                ) && after[a].0 != after[b].0 by {
                    if b == at {
                        assert(after[a] == before[a]);
                        lemma_key_le_total(k, before[a].0);
                    } else if a == at {
                        assert(after[b] == before[b - 1]);
                        if at < b - 1 {
                            assert(key_le(before[at as int].0, before[b - 1].0));
                            lemma_key_le_transitive(k, before[at as int].0, before[b - 1].0);
                        }
                    } else if b < at {
                        assert(after[a] == before[a] && after[b] == before[b]);
                    } else if a < at {
                        assert(after[a] == before[a] && after[b] == before[b - 1]);
                    } else {
                        assert(after[a] == before[a - 1] && after[b] == before[b - 1]);
                    }
                }
                assert forall|g: int| 0 <= g < after.len() implies (#[trigger] after[g]).1
                    == places_of(next, after[g].0) && after[g].1.len() > 0 by {
                    if g < at {
                        assert(after[g] == before[g]);
                    } else if g > at {
                        assert(after[g] == before[g - 1]);
                    }
                }
                assert forall|j: int| 0 <= j < next.len() implies has_group(
                    after,
                    #[trigger] next[j],
                ) by {
                    if j < i {
                        assert(has_group(before, seen[j]));
                        let g = choose|g: int| 0 <= g < before.len() && (#[trigger] before[g]).0
                            == seen[j];
                        if g < at {
                            assert(after[g].0 == next[j]);
                        } else {
                            assert(after[g + 1].0 == next[j]);
                        }
                    } else {
                        assert(after[at as int].0 == next[j]);
                    }
                }
            }
        }
        i += 1;
    }
    assert(all.take(i as int) =~= all);
    groups
}

} // verus!
