//! The parts of `std::collections::HashMap` that the lotteries use and that
//! vstd does not specify.
use std::collections::hash_map::ValuesMut;
use std::collections::HashMap;
use std::hash::{BuildHasher, Hash};
use vstd::prelude::*;
use vstd::std_specs::hash::{builds_valid_hashers, obeys_key_model};

use crate::heap_tree::{lemma_seq_sum_remove, seq_sum};

verus! {

#[verifier::external_type_specification]
#[verifier::external_body]
#[verifier::reject_recursive_types(K)]
#[verifier::reject_recursive_types(V)]
pub struct ExValuesMut<'a, K: 'a, V: 'a>(ValuesMut<'a, K, V>);

/// The keys behave as vstd's model of hash map keys requires (always so for
/// the primitive integer types), and the hasher builder is a valid one.
pub open spec fn keyed<K, S>() -> bool {
    obeys_key_model::<K>() && builds_valid_hashers::<S>()
}

/// `HashMap::with_hasher`: the documentation promises an empty map.
#[verifier::external_body]
pub(crate) fn empty_with_hasher<K, V, S>(hasher: S) -> (made: HashMap<K, V, S>)
    ensures
        made@.dom() == Set::<K>::empty(),
{
    HashMap::with_hasher(hasher)
}

/// `HashMap::with_capacity_and_hasher`: the documentation promises an empty map.
#[verifier::external_body]
pub(crate) fn empty_with_capacity_and_hasher<K, V, S>(cap: usize, hasher: S) -> (made: HashMap<K, V, S>)
    ensures
        made@.dom() == Set::<K>::empty(),
{
    HashMap::with_capacity_and_hasher(cap, hasher)
}

/// `HashMap::drain`, collected: the documentation promises that the map is
/// left empty and that every key-value pair comes out once. The order of the
/// pairs is not stated.
#[verifier::external_body]
pub(crate) fn drain_pairs<K, V, S>(m: &mut HashMap<K, V, S>) -> (pairs: Vec<(K, V)>)
    ensures
        final(m)@.dom() == Set::<K>::empty(),
        obeys_key_model::<K>() && builds_valid_hashers::<S>() ==> {
            &&& pairs@.len() == old(m)@.len()
            &&& forall|i: int|
                0 <= i < pairs@.len() ==> old(m)@.contains_key(#[trigger] pairs@[i].0)
                    && old(m)@[pairs@[i].0] == pairs@[i].1
            &&& forall|i: int, j: int|
                0 <= i < pairs@.len() && 0 <= j < pairs@.len() && i != j ==> #[trigger] pairs@[i].0
                    != #[trigger] pairs@[j].0
            &&& forall|k: K|
                old(m)@.contains_key(k) ==> exists|i: int| 0 <= i < pairs@.len() && #[trigger] pairs@[i].0 == k
        },
{
    m.drain().collect()
}

/// `HashMap::values_mut`: the values can be changed through the iterator,
/// the keys cannot, and nothing else is stated.
#[verifier::external_body]
pub(crate) fn values_mut_of<'a, K, V, S>(m: &'a mut HashMap<K, V, S>) -> (r: ValuesMut<'a, K, V>)
    ensures
        final(m)@.dom() == old(m)@.dom(),
{
    m.values_mut()
}

/// The entrants of a list put into an empty map in order, entrant `i`
/// under key `keys[i]`; a later entrant replaces an earlier one with the
/// same key.
pub open spec fn insert_all<K, E>(keys: Seq<K>, items: Seq<E>) -> Map<K, E>
    decreases items.len(),
{
    if items.len() == 0 || keys.len() < items.len() {
        Map::empty()
    } else {
        insert_all(keys.take(items.len() - 1), items.drop_last()).insert(
            keys[items.len() - 1],
            items.last(),
        )
    }
}

/// Putting a list into a map keeps at most one entry per item, and one per
/// item when the keys are distinct.
pub proof fn lemma_insert_all_len<K, E>(keys: Seq<K>, items: Seq<E>)
    requires
        keys.len() == items.len(),
    ensures
        insert_all(keys, items).dom().finite(),
        insert_all(keys, items).dom().len() <= items.len(),
        (forall|i: int, j: int|
            0 <= i < keys.len() && 0 <= j < keys.len() && #[trigger] keys[i] == #[trigger] keys[j] ==> i == j)
            ==> insert_all(keys, items).dom().len() == items.len(),
        forall|k: K| #[trigger] insert_all(keys, items).contains_key(k) <==> exists|i: int|
            0 <= i < keys.len() && keys[i] == k,
    decreases items.len(),
{
    if items.len() > 0 {
        let n = items.len() - 1;
        let ks = keys.take(n);
        lemma_insert_all_len(ks, items.drop_last());
        let m = insert_all(ks, items.drop_last());
        assert forall|k: K| #[trigger] insert_all(keys, items).contains_key(k) <==> exists|i: int|
            0 <= i < keys.len() && keys[i] == k by {
            if insert_all(keys, items).contains_key(k) && k != keys[n] {
                assert(m.contains_key(k));
                let i = choose|i: int| 0 <= i < ks.len() && ks[i] == k;
                assert(keys[i] == k);
            }
            if exists|i: int| 0 <= i < keys.len() && keys[i] == k {
                let i = choose|i: int| 0 <= i < keys.len() && keys[i] == k;
                if i < n {
                    assert(ks[i] == k);
                }
            }
        }
        if forall|i: int, j: int|
            0 <= i < keys.len() && 0 <= j < keys.len() && #[trigger] keys[i] == #[trigger] keys[j] ==> i == j {
            assert forall|i: int, j: int|
                0 <= i < ks.len() && 0 <= j < ks.len() && #[trigger] ks[i] == #[trigger] ks[j] implies i == j by {
                assert(keys[i] == keys[j]);
            }
            if m.contains_key(keys[n]) {
                let i = choose|i: int| 0 <= i < ks.len() && ks[i] == keys[n];
                assert(keys[i] == keys[n]);
            }
        }
    } else {
        assert(insert_all(keys, items).dom() =~= Set::<K>::empty());
    }
}

/// The entrants pulled out of a map, as parallel lists of keys and entrants.
pub open spec fn pulled_from<K, E>(before: Map<K, E>, keys: Seq<K>, ents: Seq<E>) -> bool {
    &&& keys.len() == ents.len()
    &&& keys.len() == before.len()
    &&& forall|i: int|
        0 <= i < keys.len() ==> before.contains_key(#[trigger] keys[i]) && before[keys[i]] == ents[i]
    &&& forall|i: int, j: int|
        0 <= i < keys.len() && 0 <= j < keys.len() && #[trigger] keys[i] == #[trigger] keys[j] ==> i == j
    &&& forall|k: K| before.contains_key(k) ==> exists|i: int| 0 <= i < keys.len() && #[trigger] keys[i] == k
}

/// Moves all entries of the map into parallel lists of keys and values.
pub(crate) fn take_all<K, E, S>(map: &mut HashMap<K, E, S>) -> (r: (Vec<K>, Vec<E>))
    ensures
        final(map)@ == Map::<K, E>::empty(),
        r.0@.len() == r.1@.len(),
        keyed::<K, S>() ==> pulled_from(old(map)@, r.0@, r.1@),
{
    let pairs = drain_pairs(map);
    let ghost ps = pairs@;
    let mut keys: Vec<K> = Vec::new();
    let mut ents: Vec<E> = Vec::new();
    for pair in it: pairs.into_iter()
        invariant
            it.seq() == ps,
            keys@.len() == it.index(),
            ents@.len() == it.index(),
            forall|j: int| 0 <= j < it.index() ==> #[trigger] keys@[j] == ps[j].0 && ents@[j] == ps[j].1,
    {
        let (k, e) = pair;
        keys.push(k);
        ents.push(e);
    }
    proof {
        assert(map@ =~= Map::<K, E>::empty());
        if keyed::<K, S>() {
            assert forall|i: int, j: int|
                0 <= i < keys@.len() && 0 <= j < keys@.len() && #[trigger] keys@[i]
                    == #[trigger] keys@[j] implies i == j by {
                assert(ps[i].0 == ps[j].0);
            }
            assert forall|k: K| old(map)@.contains_key(k) implies exists|i: int|
                0 <= i < keys@.len() && #[trigger] keys@[i] == k by {
                let i = choose|i: int| 0 <= i < ps.len() && #[trigger] ps[i].0 == k;
                assert(keys@[i] == k);
            }
            assert forall|i: int| 0 <= i < keys@.len() implies old(map)@.contains_key(
                #[trigger] keys@[i],
            ) && old(map)@[keys@[i]] == ents@[i] by {
                assert(ps[i].0 == keys@[i]);
            }
        }
    }
    (keys, ents)
}

/// Puts parallel lists of distinct keys and values into an empty map.
pub(crate) fn put_all<K: Hash + Eq, E, S: BuildHasher>(map: &mut HashMap<K, E, S>, keys_in: Vec<K>, ents_in: Vec<E>)
    requires
        old(map)@ == Map::<K, E>::empty(),
        keys_in@.len() == ents_in@.len(),
        keyed::<K, S>() ==> forall|i: int, j: int|
            0 <= i < keys_in@.len() && 0 <= j < keys_in@.len() && #[trigger] keys_in@[i] == #[trigger] keys_in@[j] ==> i == j,
    ensures
        keyed::<K, S>() ==> {
            &&& forall|k: K| #[trigger] final(map)@.contains_key(k) <==> exists|i: int|
                0 <= i < keys_in@.len() && keys_in@[i] == k
            &&& forall|i: int| 0 <= i < keys_in@.len() ==> #[trigger] final(map)@[keys_in@[i]] == ents_in@[i]
        },
{
    let ghost keys0 = keys_in@;
    let ghost ents0 = ents_in@;
    let n = keys_in.len();
    let mut keys = keys_in;
    let mut ents = ents_in;
    loop
        invariant
            keys@ == keys0.take(keys@.len() as int),
            ents@ == ents0.take(ents@.len() as int),
            keys@.len() == ents@.len(),
            keys@.len() <= n,
            keys0.len() == n,
            ents0.len() == n,
            keyed::<K, S>() ==> forall|i: int, j: int|
                0 <= i < n && 0 <= j < n && #[trigger] keys0[i] == #[trigger] keys0[j] ==> i == j,
            keyed::<K, S>() ==> {
                &&& forall|k: K| #[trigger] map@.contains_key(k) <==> exists|i: int|
                    keys@.len() <= i < n && keys0[i] == k
                &&& forall|i: int| keys@.len() <= i < n ==> #[trigger] map@[keys0[i]] == ents0[i]
            },
        ensures
            keyed::<K, S>() ==> {
                &&& forall|k: K| #[trigger] map@.contains_key(k) <==> exists|i: int|
                    0 <= i < keys0.len() && keys0[i] == k
                &&& forall|i: int| 0 <= i < n ==> #[trigger] map@[keys0[i]] == ents0[i]
            },
        decreases keys@.len(),
    {
        match keys.pop() {
            Some(k) => {
                match ents.pop() {
                    Some(e) => {
                        let ghost m = keys@.len() as int;
                        proof {
                            assert(k == keys0[m]);
                            assert(e == ents0[m]);
                        }
                        map.insert(k, e);
                        proof {
                            if keyed::<K, S>() {
                                assert forall|k2: K| #[trigger] map@.contains_key(k2) <==> exists|i: int|
                                    m <= i < n && keys0[i] == k2 by {
                                    if map@.contains_key(k2) && k2 != keys0[m] {
                                        let i = choose|i: int| m + 1 <= i < n && keys0[i] == k2;
                                    }
                                    if exists|i: int| m <= i < n && keys0[i] == k2 {
                                        let i = choose|i: int| m <= i < n && keys0[i] == k2;
                                        if i != m {
                                            assert(exists|i2: int| m + 1 <= i2 < n && keys0[i2] == k2);
                                        }
                                    }
                                }
                            }
                        }
                    },
                    None => {
                        proof {
                            assert(false);
                        }
                    },
                }
            },
            None => {
                proof {
                    assert(keys@.len() == 0);
                    if keyed::<K, S>() {
                        assert forall|k: K| #[trigger] map@.contains_key(k) <==> exists|i: int|
                            0 <= i < keys0.len() && keys0[i] == k by {
                            if map@.contains_key(k) {
                                let i = choose|i: int| 0 <= i < n && keys0[i] == k;
                                assert(0 <= i < keys0.len() && keys0[i] == k);
                            }
                        }
                    }
                }
                break ;
            },
        }
    }
}

/// Each key occurs once in `ks`.
pub open spec fn distinct<K>(ks: Seq<K>) -> bool {
    forall|i: int, j: int|
        0 <= i < ks.len() && 0 <= j < ks.len() && #[trigger] ks[i] == #[trigger] ks[j] ==> i == j
}

/// Two lists of the same keys, each key once, give the same sum of `f`
/// over their keys, in whatever order they list them.
pub proof fn lemma_keys_sum<K>(ks1: Seq<K>, ks2: Seq<K>, f: spec_fn(K) -> nat)
    requires
        distinct(ks1),
        distinct(ks2),
        forall|k: K| ks1.contains(k) <==> ks2.contains(k),
    ensures
        seq_sum(ks1.map_values(f)) == seq_sum(ks2.map_values(f)),
    decreases ks1.len(),
{
    if ks1.len() == 0 {
        if ks2.len() > 0 {
            assert(ks2.contains(ks2[0]));
        }
        assert(ks1.map_values(f) =~= Seq::<nat>::empty());
        assert(ks2.map_values(f) =~= Seq::<nat>::empty());
    } else {
        let k = ks1.last();
        let a = ks1.drop_last();
        assert(ks1.contains(k)) by {
            assert(ks1[ks1.len() - 1] == k);
        }
        let j = choose|j: int| 0 <= j < ks2.len() && ks2[j] == k;
        let b = ks2.remove(j);
        assert forall|x: K| a.contains(x) <==> b.contains(x) by {
            if a.contains(x) {
                let i = choose|i: int| 0 <= i < a.len() && a[i] == x;
                assert(ks1[i] == x);
                assert(x != k);
                assert(ks2.contains(x));
                let m = choose|m: int| 0 <= m < ks2.len() && ks2[m] == x;
                assert(m != j);
                if m < j {
                    assert(b[m] == x);
                } else {
                    assert(b[m - 1] == x);
                }
            }
            if b.contains(x) {
                let m = choose|m: int| 0 <= m < b.len() && b[m] == x;
                let m2 = if m < j { m } else { m + 1 };
                assert(ks2[m2] == x);
                assert(m2 != j);
                assert(x != k);
                assert(ks1.contains(x));
                let i = choose|i: int| 0 <= i < ks1.len() && ks1[i] == x;
                assert(i != ks1.len() - 1);
                assert(a[i] == x);
            }
        }
        assert forall|p: int, q: int|
            0 <= p < b.len() && 0 <= q < b.len() && #[trigger] b[p] == #[trigger] b[q] implies p == q by {
            let p2 = if p < j { p } else { p + 1 };
            let q2 = if q < j { q } else { q + 1 };
            assert(ks2[p2] == ks2[q2]);
        }
        lemma_keys_sum(a, b, f);
        assert(ks1.map_values(f).drop_last() =~= a.map_values(f));
        lemma_seq_sum_remove(ks2.map_values(f), j);
        assert(ks2.map_values(f).remove(j) =~= b.map_values(f));
    }
}

} // verus!
